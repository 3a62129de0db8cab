//! Dates and times read from text, in ISO 8601 notation and by picture strings.
use vstd::prelude::*;

use super::calendar::{datetime_to_epoch_ms, epoch_ms, in_i64, ms_representable, secs_to_ymd_hms};
use super::format::{
    before_dash, date_of, lemma_date_unique, lemma_find_after, month_name, month_text, squeeze, squeezed, weekday_name,
    weekday_text,
};
use super::tz::{ascii_only, is_ascii, parse_tz_from_input, zone_at};
use super::words::{parse_word_number_from_string, words_at};
use crate::error::JsonataError;
use crate::stdlib::number_words::{roman_digit, roman_value};
use crate::text::{
    all_digits, ascii_letter, char_lowercase, chars_of, digit_run, digits_end, find, find_char, is_digit, is_text,
    lower_chars, lowercase, number_of, occurs_at, parse_int, parse_spec, part, rfind, rfind_char, same, starts_with,
    std_char_lowercase,
};

verus! {

// ── ISO 8601 ─────────────────────────────────────────────────────────────────

/// The integer of a signed 32-bit type between two positions.
pub open spec fn int_at(s: Seq<char>, from: int, to: int) -> Option<int> {
    parse_spec(s.subrange(from, to), i32::MIN as int, i32::MAX as int)
}

/// The integer of an unsigned 8-bit type between two positions.
pub open spec fn byte_at(s: Seq<char>, from: int, to: int) -> Option<int> {
    parse_spec(s.subrange(from, to), 0, u8::MAX as int)
}

/// The integer of a signed 64-bit type between two positions.
pub open spec fn long_at(s: Seq<char>, from: int, to: int) -> Option<int> {
    parse_spec(s.subrange(from, to), i64::MIN as int, i64::MAX as int)
}

fn read_int(s: &[char], from: usize, to: usize) -> (r: Option<i32>)
    requires
        from <= to <= s@.len(),
    ensures
        match r {
            Some(v) => int_at(s@, from as int, to as int) == Some(v as int),
            None => int_at(s@, from as int, to as int) is None,
        },
{
    let t = part(s, from, to);
    match parse_int(t.as_slice(), i32::MIN as i128, i32::MAX as i128) {
        Some(v) => Some(v as i32),
        None => None,
    }
}

fn read_byte(s: &[char], from: usize, to: usize) -> (r: Option<u8>)
    requires
        from <= to <= s@.len(),
    ensures
        match r {
            Some(v) => byte_at(s@, from as int, to as int) == Some(v as int),
            None => byte_at(s@, from as int, to as int) is None,
        },
{
    let t = part(s, from, to);
    match parse_int(t.as_slice(), 0, u8::MAX as i128) {
        Some(v) => Some(v as u8),
        None => None,
    }
}

fn read_long(s: &[char], from: usize, to: usize) -> (r: Option<i64>)
    requires
        from <= to <= s@.len(),
    ensures
        match r {
            Some(v) => long_at(s@, from as int, to as int) == Some(v as int),
            None => long_at(s@, from as int, to as int) is None,
        },
{
    let t = part(s, from, to);
    match parse_int(t.as_slice(), i64::MIN as i128, i64::MAX as i128) {
        Some(v) => Some(v as i64),
        None => None,
    }
}

/// Calendar date and time of day, before any offset is applied.
#[derive(Clone, Copy, Debug)]
pub struct Civil {
    pub year: i32,
    pub month: i64,
    pub day: i64,
    pub hour: i64,
    pub minute: i64,
    pub second: i64,
}

/// Epoch milliseconds of a civil time, where they can be represented.
pub open spec fn civil_ms(c: Civil, ms: int) -> Option<int> {
    if ms_representable(
        c.year as int,
        c.month as int,
        c.day as int,
        c.hour as int,
        c.minute as int,
        c.second as int,
        ms,
    ) {
        Some(
            epoch_ms(
                c.year as int,
                c.month as int,
                c.day as int,
                c.hour as int,
                c.minute as int,
                c.second as int,
                ms,
            ),
        )
    } else {
        None
    }
}

fn ms_of_civil(c: &Civil, ms: i64) -> (r: Option<i64>)
    requires
        c.month > i64::MIN,
    ensures
        is_same(r, civil_ms(*c, ms as int)),
{
    datetime_to_epoch_ms(c.year, c.month, c.day, c.hour, c.minute, c.second, ms)
}

/// Whether a 64-bit result is the mathematical one.
pub open spec fn is_same(r: Option<i64>, want: Option<int>) -> bool {
    match r {
        Some(v) => want == Some(v as int),
        None => want is None,
    }
}

/// A timestamp moved to UTC by an offset in seconds.
pub open spec fn to_utc(ms: Option<int>, tz: int) -> Option<int> {
    match ms {
        Some(m) => if in_i64(m - tz * 1000) {
            Some(m - tz * 1000)
        } else {
            None
        },
        None => None,
    }
}

/// Date and time at the front of an ISO 8601 text: `YYYY-MM-DDTHH:MM:SS`.
pub open spec fn civil_at(s: Seq<char>) -> Option<Civil> {
    match (
        int_at(s, 0, 4),
        byte_at(s, 5, 7),
        byte_at(s, 8, 10),
        byte_at(s, 11, 13),
        byte_at(s, 14, 16),
        byte_at(s, 17, 19),
    ) {
        (Some(y), Some(m), Some(d), Some(h), Some(mi), Some(se)) => Some(
            Civil {
                year: y as i32,
                month: m as i64,
                day: d as i64,
                hour: h as i64,
                minute: mi as i64,
                second: se as i64,
            },
        ),
        _ => None,
    }
}

fn read_civil(s: &[char]) -> (r: Option<Civil>)
    requires
        s@.len() >= 19,
    ensures
        r == civil_at(s@),
        r is Some ==> 0 <= r->0.month <= 255,
{
    let year: i32 = match read_int(s, 0, 4) {
        Some(v) => v,
        None => {
            return None;
        },
    };
    let month: u8 = match read_byte(s, 5, 7) {
        Some(v) => v,
        None => {
            return None;
        },
    };
    let day: u8 = match read_byte(s, 8, 10) {
        Some(v) => v,
        None => {
            return None;
        },
    };
    let hour: u8 = match read_byte(s, 11, 13) {
        Some(v) => v,
        None => {
            return None;
        },
    };
    let minute: u8 = match read_byte(s, 14, 16) {
        Some(v) => v,
        None => {
            return None;
        },
    };
    let second: u8 = match read_byte(s, 17, 19) {
        Some(v) => v,
        None => {
            return None;
        },
    };
    Some(
        Civil {
            year,
            month: month as i64,
            day: day as i64,
            hour: hour as i64,
            minute: minute as i64,
            second: second as i64,
        },
    )
}

/// A power of ten.
pub open spec fn tenfold(v: int, k: nat) -> int
    decreases k,
{
    if k == 0 {
        v
    } else {
        tenfold(v * 10, (k - 1) as nat)
    }
}

/// Division by a power of ten, towards zero.
pub open spec fn tenth(v: int, k: nat) -> int
    decreases k,
{
    if k == 0 {
        v
    } else {
        tenth(
            if v < 0 {
                -((-v) / 10)
            } else {
                v / 10
            },
            (k - 1) as nat,
        )
    }
}

/// Milliseconds from a fraction of a second of `n` digits.
pub open spec fn frac_ms(v: int, n: int) -> int {
    if n < 3 {
        tenfold(v, (3 - n) as nat)
    } else {
        tenth(v, (n - 3) as nat)
    }
}

/// A number reduced to a signed 32-bit type.
pub open spec fn wrapped_i32(x: int) -> int {
    (x + 0x8000_0000) % 0x1_0000_0000 - 0x8000_0000
}

fn wrap_i32(x: i128) -> (r: i32)
    requires
        -0x1000_0000_0000_0000_0000 <= x <= 0x1000_0000_0000_0000_0000,
    ensures
        r == wrapped_i32(x as int),
{
    let y: i128 = x + 0x8000_0000;
    let m: i128 = if y >= 0 {
        (y as u128 % 0x1_0000_0000) as i128
    } else {
        let k: u128 = (-1 - y) as u128;
        let q: u128 = k % 0x1_0000_0000;
        proof {
            let kk = k as int;
            let d: int = 0x1_0000_0000;
            assert(kk == d * (kk / d) + kk % d);
            vstd::arithmetic::div_mod::lemma_fundamental_div_mod_converse(
                y as int,
                d,
                -(kk / d) - 1,
                d - 1 - kk % d,
            );
        }
        0xffff_ffff - q as i128
    };
    (m - 0x8000_0000) as i32
}

/// Milliseconds from the value of a fraction of a second and the count of
/// characters that it took.
pub fn normalize_frac_to_ms(v: i64, n: usize) -> (r: i32)
    ensures
        r == wrapped_i32(frac_ms(v as int, n as int)),
{
    let mut val: i128 = v as i128;
    if n < 3 {
        if n == 0 {
            val = val * 1000;
        } else if n == 1 {
            val = val * 100;
        } else {
            val = val * 10;
        }
        proof {
            reveal_with_fuel(tenfold, 4);
        }
    } else {
        let mut i: usize = n;
        while i > 3
            invariant
                3 <= i <= n,
                i64::MIN <= val <= i64::MAX,
                tenth(v as int, (n - 3) as nat) == tenth(val as int, (i - 3) as nat),
            decreases i,
        {
            if val < 0 {
                val = -(-val / 10);
            } else {
                val = val / 10;
            }
            i = i - 1;
        }
    }
    wrap_i32(val)
}

/// Milliseconds and the position after them, from the end of the seconds of
/// an ISO 8601 text.
pub open spec fn iso_fraction(s: Seq<char>) -> Option<(int, int)> {
    if s[19] == '.' {
        let n = digit_run(s, 20) as int;
        match int_at(s, 20, 20 + n) {
            Some(v) => Some((frac_ms(v, n), 20 + n)),
            None => None,
        }
    } else {
        Some((0, 19))
    }
}

/// The offset that ends an ISO 8601 text, in seconds.
pub open spec fn iso_zone(t: Seq<char>) -> Option<int> {
    if t == "Z"@ || t == "z"@ {
        Some(0)
    } else if t.len() < 5 || (t[0] != '+' && t[0] != '-') {
        None
    } else {
        let colon = find_char(t, ':', 1) is Some && t.len() >= 6;
        let minutes = if colon {
            long_at(t, 4, 6)
        } else {
            long_at(t, 3, 5)
        };
        match (long_at(t, 1, 3), minutes) {
            (Some(h), Some(m)) => Some(
                if t[0] == '+' {
                    h * 3600 + m * 60
                } else {
                    -(h * 3600 + m * 60)
                },
            ),
            _ => None,
        }
    }
}

/// Epoch milliseconds of an ISO 8601 text with an offset.
pub open spec fn iso_with_zone(s: Seq<char>) -> Option<int> {
    if !ascii_only(s) || s.len() < 20 || s[4] != '-' || s[10] != 'T' {
        None
    } else {
        match (civil_at(s), iso_fraction(s)) {
            (Some(c), Some((ms, end))) => match iso_zone(s.skip(end)) {
                Some(tz) => to_utc(civil_ms(c, ms), tz),
                None => None,
            },
            _ => None,
        }
    }
}

proof fn lemma_number_below(s: Seq<char>)
    requires
        all_digits(s),
    ensures
        number_of(s) < tenfold(1, s.len() as nat),
    decreases s.len(),
{
    if s.len() > 0 {
        lemma_number_below(s.drop_last());
        assert(is_digit(s[s.len() - 1]));
        lemma_tenfold_step(1, (s.len() - 1) as nat);
    }
}

proof fn lemma_tenfold_step(v: int, k: nat)
    ensures
        tenfold(v, k + 1) == tenfold(v, k) * 10,
    decreases k,
{
    if k > 0 {
        lemma_tenfold_step(v * 10, (k - 1) as nat);
    } else {
        reveal_with_fuel(tenfold, 2);
    }
}

proof fn lemma_two_digit_long(s: Seq<char>)
    requires
        s.len() == 2,
        parse_spec(s, i64::MIN as int, i64::MAX as int) is Some,
    ensures
        -99 <= parse_spec(s, i64::MIN as int, i64::MAX as int)->0 <= 99,
{
    let d = if s[0] == '+' || s[0] == '-' {
        s.skip(1)
    } else {
        s
    };
    lemma_number_below(d);
    reveal_with_fuel(tenfold, 3);
}

proof fn lemma_tenth_between(v: int, k: nat)
    ensures
        v >= 0 ==> 0 <= tenth(v, k) <= v,
        v < 0 ==> v <= tenth(v, k) <= 0,
    decreases k,
{
    if k > 0 {
        lemma_tenth_between(
            if v < 0 {
                -((-v) / 10)
            } else {
                v / 10
            },
            (k - 1) as nat,
        );
    }
}

proof fn lemma_run_is_digits(s: Seq<char>, from: int)
    requires
        0 <= from <= s.len(),
    ensures
        from + digit_run(s, from) <= s.len(),
        all_digits(s.subrange(from, from + digit_run(s, from))),
    decreases s.len() - from,
{
    if from < s.len() && is_digit(s[from]) {
        lemma_run_is_digits(s, from + 1);
        let a = s.subrange(from, from + digit_run(s, from));
        let b = s.subrange(from + 1, from + 1 + digit_run(s, from + 1));
        assert forall|i: int| 0 <= i < a.len() implies is_digit(#[trigger] a[i]) by {
            if i > 0 {
                assert(a[i] == b[i - 1]);
            }
        }
    }
}

fn read_iso_fraction(s: &[char]) -> (r: Option<(i32, usize)>)
    requires
        s@.len() >= 20,
    ensures
        match r {
            Some((ms, end)) => iso_fraction(s@) == Some((ms as int, end as int)) && end <= s@.len(),
            None => iso_fraction(s@) is None,
        },
{
    if s[19] != '.' {
        return Some((0, 19));
    }
    let end: usize = digits_end(s, 20);
    let n: usize = end - 20;
    proof {
        lemma_run_is_digits(s@, 20);
    }
    match read_int(s, 20, end) {
        Some(v) => {
            let ghost d = s@.subrange(20, end as int);
            proof {
                assert(!(d[0] == '+') && !(d[0] == '-')) by {
                    assert(is_digit(d[0]));
                }
                assert(d.len() == n);
                lemma_number_below(d);
                reveal_with_fuel(tenfold, 4);
                lemma_tenth_between(v as int, (n - 3) as nat);
            }
            let ms: i32 = normalize_frac_to_ms(v as i64, n);
            assert(0 <= frac_ms(v as int, n as int) <= i32::MAX);
            Some((ms, end))
        },
        None => None,
    }
}

fn read_iso_zone(t: &[char]) -> (r: Option<i64>)
    ensures
        match r {
            Some(v) => iso_zone(t@) == Some(v as int) && -400_000 <= v <= 400_000,
            None => iso_zone(t@) is None,
        },
{
    if is_text(t, "Z") || is_text(t, "z") {
        return Some(0);
    }
    if t.len() < 5 {
        return None;
    }
    if t[0] != '+' && t[0] != '-' {
        return None;
    }
    let h: i64 = match read_long(t, 1, 3) {
        Some(v) => v,
        None => {
            return None;
        },
    };
    let colon: bool = find(t, ':', 1).is_some() && t.len() >= 6;
    let m: i64 = match if colon {
        read_long(t, 4, 6)
    } else {
        read_long(t, 3, 5)
    } {
        Some(v) => v,
        None => {
            return None;
        },
    };
    proof {
        lemma_two_digit_long(t@.subrange(1, 3));
        if colon {
            lemma_two_digit_long(t@.subrange(4, 6));
        } else {
            lemma_two_digit_long(t@.subrange(3, 5));
        }
    }
    let secs: i64 = h * 3600 + m * 60;
    if t[0] == '+' {
        Some(secs)
    } else {
        Some(-secs)
    }
}

fn shift_to_utc(ms: Option<i64>, tz: i64) -> (r: Option<i64>)
    requires
        -400_000 <= tz <= 400_000,
    ensures
        forall|want: Option<int>| is_same(ms, want) ==> is_same(r, #[trigger] to_utc(want, tz as int)),
{
    match ms {
        Some(m) => m.checked_sub(tz * 1000),
        None => None,
    }
}

/// Epoch milliseconds of an ISO 8601 text with an offset.
pub fn try_parse_iso_with_tz(s: &[char]) -> (r: Option<i64>)
    ensures
        is_same(r, iso_with_zone(s@)),
{
    if !is_ascii(s) || s.len() < 20 || s[4] != '-' || s[10] != 'T' {
        return None;
    }
    let c = match read_civil(s) {
        Some(c) => c,
        None => {
            return None;
        },
    };
    let (ms, end) = match read_iso_fraction(s) {
        Some(p) => p,
        None => {
            return None;
        },
    };
    let t = part(s, end, s.len());
    assert(t@ =~= s@.skip(end as int));
    match read_iso_zone(t.as_slice()) {
        Some(tz) => shift_to_utc(ms_of_civil(&c, ms as i64), tz),
        None => None,
    }
}

/// Epoch milliseconds of a date, `YYYY-MM-DD`.
pub open spec fn iso_date(s: Seq<char>) -> Option<int> {
    if !ascii_only(s) || s.len() != 10 || s[4] != '-' || s[7] != '-' {
        None
    } else {
        match (int_at(s, 0, 4), long_at(s, 5, 7), long_at(s, 8, 10)) {
            (Some(y), Some(m), Some(d)) => civil_ms(
                Civil { year: y as i32, month: m as i64, day: d as i64, hour: 0, minute: 0, second: 0 },
                0,
            ),
            _ => None,
        }
    }
}

/// Epoch milliseconds of a date, `YYYY-MM-DD`.
pub fn try_parse_date_only(s: &[char]) -> (r: Option<i64>)
    ensures
        is_same(r, iso_date(s@)),
{
    if !is_ascii(s) || s.len() != 10 || s[4] != '-' || s[7] != '-' {
        return None;
    }
    let year: i32 = match read_int(s, 0, 4) {
        Some(v) => v,
        None => {
            return None;
        },
    };
    let month: i64 = match read_long(s, 5, 7) {
        Some(v) => v,
        None => {
            return None;
        },
    };
    let day: i64 = match read_long(s, 8, 10) {
        Some(v) => v,
        None => {
            return None;
        },
    };
    proof {
        lemma_two_digit_long(s@.subrange(5, 7));
    }
    ms_of_civil(&Civil { year, month, day, hour: 0, minute: 0, second: 0 }, 0)
}

/// Epoch milliseconds of a year, `YYYY`.
pub open spec fn iso_year_only(s: Seq<char>) -> Option<int> {
    if s.len() != 4 {
        None
    } else {
        match int_at(s, 0, 4) {
            Some(y) => civil_ms(Civil { year: y as i32, month: 1, day: 1, hour: 0, minute: 0, second: 0 }, 0),
            None => None,
        }
    }
}

/// Epoch milliseconds of a year, `YYYY`.
pub fn try_parse_year_only(s: &[char]) -> (r: Option<i64>)
    ensures
        is_same(r, iso_year_only(s@)),
{
    if s.len() != 4 {
        return None;
    }
    match read_int(s, 0, 4) {
        Some(year) => ms_of_civil(&Civil { year, month: 1, day: 1, hour: 0, minute: 0, second: 0 }, 0),
        None => None,
    }
}

/// Milliseconds after the seconds of an ISO 8601 text without an offset: up to
/// three digits that follow a point.
pub open spec fn local_fraction(s: Seq<char>) -> Option<int> {
    if s.len() > 20 && s[19] == '.' {
        let n = if s.len() - 20 < 3 {
            s.len() - 20
        } else {
            3
        };
        match int_at(s, 20, 20 + n) {
            Some(v) => Some(tenfold(v, (3 - n) as nat)),
            None => None,
        }
    } else {
        Some(0)
    }
}

/// Epoch milliseconds of an ISO 8601 text without an offset.
pub open spec fn iso_local(s: Seq<char>) -> Option<int> {
    if !ascii_only(s) || s.len() < 19 || s[4] != '-' || s[10] != 'T' {
        None
    } else {
        match (civil_at(s), local_fraction(s)) {
            (Some(c), Some(ms)) => civil_ms(c, ms),
            _ => None,
        }
    }
}

proof fn lemma_short_int(s: Seq<char>)
    requires
        s.len() <= 3,
        parse_spec(s, i32::MIN as int, i32::MAX as int) is Some,
    ensures
        -999 <= parse_spec(s, i32::MIN as int, i32::MAX as int)->0 <= 999,
{
    let d = if s.len() > 0 && (s[0] == '+' || s[0] == '-') {
        s.skip(1)
    } else {
        s
    };
    lemma_number_below(d);
    reveal_with_fuel(tenfold, 4);
}

fn read_local_fraction(s: &[char]) -> (r: Option<i64>)
    ensures
        is_same(r, local_fraction(s@)),
{
    if s.len() <= 20 || s[19] != '.' {
        return Some(0);
    }
    let n: usize = if s.len() - 20 < 3 {
        s.len() - 20
    } else {
        3
    };
    match read_int(s, 20, 20 + n) {
        Some(v) => {
            proof {
                lemma_short_int(s@.subrange(20, 20 + n));
                reveal_with_fuel(tenfold, 3);
            }
            if n == 1 {
                Some(v as i64 * 100)
            } else if n == 2 {
                Some(v as i64 * 10)
            } else {
                Some(v as i64)
            }
        },
        None => None,
    }
}

/// Epoch milliseconds of an ISO 8601 text without an offset.
pub fn try_parse_datetime_no_tz(s: &[char]) -> (r: Option<i64>)
    ensures
        is_same(r, iso_local(s@)),
{
    if !is_ascii(s) || s.len() < 19 || s[4] != '-' || s[10] != 'T' {
        return None;
    }
    let c = match read_civil(s) {
        Some(c) => c,
        None => {
            return None;
        },
    };
    match read_local_fraction(s) {
        Some(ms) => ms_of_civil(&c, ms),
        None => None,
    }
}

/// Epoch milliseconds of a text in one of the ISO 8601 notations.
pub open spec fn iso_millis(s: Seq<char>) -> Option<int> {
    if iso_with_zone(s) is Some {
        iso_with_zone(s)
    } else if iso_date(s) is Some {
        iso_date(s)
    } else if iso_year_only(s) is Some {
        iso_year_only(s)
    } else {
        iso_local(s)
    }
}

/// Epoch milliseconds of a text in one of the ISO 8601 notations.
pub fn iso_to_millis(s: &[char]) -> (r: Option<i64>)
    ensures
        is_same(r, iso_millis(s@)),
{
    match try_parse_iso_with_tz(s) {
        Some(ms) => {
            return Some(ms);
        },
        None => {},
    }
    match try_parse_date_only(s) {
        Some(ms) => {
            return Some(ms);
        },
        None => {},
    }
    match try_parse_year_only(s) {
        Some(ms) => {
            return Some(ms);
        },
        None => {},
    }
    try_parse_datetime_no_tz(s)
}

// ── Values of components ─────────────────────────────────────────────────────

/// The most digits that a numeric modifier takes, or zero for no limit.
pub open spec fn field_width(modifier: Seq<char>) -> int {
    if modifier.len() == 0 {
        0
    } else if modifier[0] == ',' {
        match rfind_char(modifier, '-', modifier.len() as int) {
            Some(i) => match parse_spec(modifier.skip(i + 1), 0, usize::MAX as int) {
                Some(n) => n,
                None => 0,
            },
            None => 0,
        }
    } else if modifier.len() >= 2 && forall|i: int|
        0 <= i < modifier.len() ==> modifier[i] == '0' || modifier[i] == '1' {
        modifier.len() as int
    } else {
        0
    }
}

/// The most digits that a numeric modifier takes, or zero for no limit.
pub fn modifier_field_width(modifier: &[char]) -> (r: usize)
    ensures
        r == field_width(modifier@),
{
    if modifier.len() == 0 {
        return 0;
    }
    if modifier[0] == ',' {
        return match rfind(modifier, '-') {
            Some(i) => {
                let t = part(modifier, i + 1, modifier.len());
                assert(t@ =~= modifier@.skip(i + 1));
                match parse_int(t.as_slice(), 0, usize::MAX as i128) {
                    Some(n) => n as usize,
                    None => 0,
                }
            },
            None => 0,
        };
    }
    if modifier.len() < 2 {
        return 0;
    }
    let mut i: usize = 0;
    while i < modifier.len()
        invariant
            i <= modifier.len(),
            modifier.len() >= 2,
            modifier@[0] != ',',
            forall|k: int| 0 <= k < i ==> modifier@[k] == '0' || modifier@[k] == '1',
        decreases modifier.len() - i,
    {
        if modifier[i] != '0' && modifier[i] != '1' {
            assert(!(modifier@[i as int] == '0' || modifier@[i as int] == '1'));
            return 0;
        }
        i = i + 1;
    }
    modifier.len()
}

/// A number of 64 bits from digits, if it fits.
pub open spec fn fitting(s: Seq<char>) -> Option<int> {
    if number_of(s) <= i64::MAX {
        Some(number_of(s) as int)
    } else {
        None
    }
}

fn fit(s: &[char], from: usize, to: usize) -> (r: Option<i64>)
    requires
        from < to <= s@.len(),
        all_digits(s@.subrange(from as int, to as int)),
    ensures
        match r {
            Some(v) => fitting(s@.subrange(from as int, to as int)) == Some(v as int) && v >= 0,
            None => fitting(s@.subrange(from as int, to as int)) is None,
        },
{
    let t = part(s, from, to);
    assert(is_digit(t@[0]));
    match parse_int(t.as_slice(), 0, i64::MAX as i128) {
        Some(v) => Some(v as i64),
        None => None,
    }
}

/// A signed number at the front of a text, of at most as many digits as the
/// modifier takes: its value, and the count of characters.
pub open spec fn numeric_value(s: Seq<char>, modifier: Seq<char>) -> Option<(int, int)> {
    let start = if s.len() > 0 && s[0] == '-' {
        1int
    } else {
        0int
    };
    let run = digit_run(s, start) as int;
    let w = field_width(modifier);
    let n = if w > 0 && run > w {
        w
    } else {
        run
    };
    if n == 0 {
        None
    } else {
        match fitting(s.subrange(start, start + n)) {
            Some(v) => Some(
                (
                    if start == 1 {
                        -v
                    } else {
                        v
                    },
                    start + n,
                ),
            ),
            None => None,
        }
    }
}

/// What is read at the front of a text: a value and a count of characters.
pub open spec fn reads(r: Option<(i64, usize)>, want: Option<(int, int)>, len: nat) -> bool {
    match r {
        Some((v, n)) => want == Some((v as int, n as int)) && n <= len && v > i64::MIN,
        None => want is None,
    }
}

/// A signed number at the front of a text.
pub fn parse_numeric_value(s: &[char], modifier: &[char]) -> (r: Option<(i64, usize)>)
    ensures
        reads(r, numeric_value(s@, modifier@), s@.len()),
{
    let start: usize = if s.len() > 0 && s[0] == '-' {
        1
    } else {
        0
    };
    let w: usize = modifier_field_width(modifier);
    let run: usize = digits_end(s, start) - start;
    let n: usize = if w > 0 && run > w {
        w
    } else {
        run
    };
    if n == 0 {
        return None;
    }
    proof {
        lemma_run_is_digits(s@, start as int);
        let a = s@.subrange(start as int, start + run);
        assert forall|i: int| 0 <= i < n implies is_digit(#[trigger] s@.subrange(start as int, start + n)[i]) by {
            assert(is_digit(a[i]));
        }
    }
    match fit(s, start, start + n) {
        Some(v) => Some(
            (
                if start == 1 {
                    -v
                } else {
                    v
                },
                start + n,
            ),
        ),
        None => None,
    }
}

/// Whether two letters, whatever their case, are the suffix of an ordinal.
pub open spec fn ordinal_ending(s: Seq<char>) -> bool {
    let l = lowercase(s);
    l == "st"@ || l == "nd"@ || l == "rd"@ || l == "th"@
}

/// An ordinal number at the front of a text.
pub open spec fn ordinal_value(s: Seq<char>) -> Option<(int, int)> {
    let n = digit_run(s, 0) as int;
    if n == 0 {
        None
    } else {
        match fitting(s.subrange(0, n)) {
            Some(v) => Some(
                (
                    v,
                    if n + 2 <= s.len() && ordinal_ending(s.subrange(n, n + 2)) {
                        n + 2
                    } else {
                        n
                    },
                ),
            ),
            None => None,
        }
    }
}

/// An ordinal number at the front of a text.
pub fn parse_ordinal_number(s: &[char]) -> (r: Option<(i64, usize)>)
    ensures
        reads(r, ordinal_value(s@), s@.len()),
{
    let n: usize = digits_end(s, 0);
    if n == 0 {
        return None;
    }
    proof {
        lemma_run_is_digits(s@, 0);
    }
    match fit(s, 0, n) {
        Some(v) => {
            if s.len() >= 2 && n <= s.len() - 2 {
                let t = part(s, n, n + 2);
                let l = lower_chars(t.as_slice());
                if is_text(l.as_slice(), "st") || is_text(l.as_slice(), "nd") || is_text(l.as_slice(), "rd")
                    || is_text(l.as_slice(), "th") {
                    return Some((v, n + 2));
                }
            }
            Some((v, n))
        },
        None => None,
    }
}

/// Length of the run of Roman digits that starts at `i`.
pub open spec fn roman_run(s: Seq<char>, i: int) -> nat
    decreases s.len() - i,
{
    if 0 <= i < s.len() && roman_digit(s[i]) is Some {
        1 + roman_run(s, i + 1)
    } else {
        0
    }
}

/// The sum of the Roman digits from `i` to `to`, and the largest of them that
/// was added: a digit before a larger one is subtracted.
pub open spec fn roman_sum(s: Seq<char>, i: int, to: int) -> (int, int)
    decreases to - i,
{
    if i >= to {
        (0, 0)
    } else {
        let (total, prev) = roman_sum(s, i + 1, to);
        let v = roman_digit(s[i])->0;
        if v < prev {
            (total - v, prev)
        } else {
            (total + v, v)
        }
    }
}

/// A Roman numeral at the front of a text.
pub open spec fn roman_at(s: Seq<char>) -> Option<(int, int)> {
    let n = roman_run(s, 0) as int;
    let v = roman_sum(s, 0, n).0;
    if n == 0 || v > i64::MAX || v <= i64::MIN {
        None
    } else {
        Some((v, n))
    }
}

/// A Roman numeral at the front of a text.
pub fn parse_roman(s: &[char]) -> (r: Option<(i64, usize)>)
    ensures
        reads(r, roman_at(s@), s@.len()),
{
    let mut n: usize = 0;
    while n < s.len() && roman_value(s[n]).is_some()
        invariant
            n <= s.len(),
            forall|k: int| 0 <= k < n ==> roman_digit(#[trigger] s@[k]) is Some,
            roman_run(s@, 0) == n + roman_run(s@, n as int),
        decreases s.len() - n,
    {
        n = n + 1;
    }
    if n == 0 {
        return None;
    }
    let mut total: i128 = 0;
    let mut prev: i64 = 0;
    let mut j: usize = n;
    while j > 0
        invariant
            j <= n <= s.len(),
            forall|k: int| 0 <= k < n ==> roman_digit(#[trigger] s@[k]) is Some,
            (total as int, prev as int) == roman_sum(s@, j as int, n as int),
            -1000 * (n - j) <= total <= 1000 * (n - j),
        decreases j,
    {
        j = j - 1;
        match roman_value(s[j]) {
            Some(v) => {
                if v < prev {
                    total = total - v as i128;
                } else {
                    total = total + v as i128;
                    prev = v;
                }
            },
            None => {},
        }
    }
    if total > i64::MAX as i128 || total <= i64::MIN as i128 {
        return None;
    }
    Some((total as i64, n))
}

/// Rank of an ASCII letter in the alphabet, whatever its case.
pub open spec fn letter_rank(c: char) -> int {
    if c >= 'a' {
        c as int - 'a' as int + 1
    } else {
        c as int - 'A' as int + 1
    }
}

/// An alphabetic numeral read on from position `i` with the value `acc` so
/// far: its value, if that stays within 64 bits, and where it ends.
pub open spec fn letters_from(s: Seq<char>, i: int, acc: int) -> Option<(int, int)>
    decreases s.len() - i,
{
    if 0 <= i < s.len() && ascii_letter(s[i]) {
        let v = acc * 26 + letter_rank(s[i]);
        if v > i64::MAX {
            None
        } else {
            letters_from(s, i + 1, v)
        }
    } else if i == 0 {
        None
    } else {
        Some((acc, i))
    }
}

/// An alphabetic numeral at the front of a text.
pub fn parse_alphabetic(s: &[char]) -> (r: Option<(i64, usize)>)
    ensures
        reads(r, letters_from(s@, 0, 0), s@.len()),
{
    let mut i: usize = 0;
    let mut acc: i64 = 0;
    while i < s.len()
        invariant
            i <= s.len(),
            acc >= 0,
            letters_from(s@, 0, 0) == letters_from(s@, i as int, acc as int),
        decreases s.len() - i,
    {
        let c: char = s[i];
        let rank: i128 = if 'a' <= c && c <= 'z' {
            c as i128 - 96
        } else if 'A' <= c && c <= 'Z' {
            c as i128 - 64
        } else {
            return if i == 0 {
                None
            } else {
                Some((acc, i))
            };
        };
        let v: i128 = acc as i128 * 26 + rank;
        if v > i64::MAX as i128 {
            return None;
        }
        acc = v as i64;
        i = i + 1;
    }
    if i == 0 {
        None
    } else {
        Some((acc, i))
    }
}

/// The length to which a modifier cuts names, or zero for no cut.
pub open spec fn name_width(modifier: Seq<char>) -> int {
    match find_char(modifier, ',', 0) {
        Some(i) => {
            let range = modifier.skip(i + 1);
            let last = match rfind_char(range, '-', range.len() as int) {
                Some(k) => range.skip(k + 1),
                None => range,
            };
            match parse_spec(last, 0, usize::MAX as int) {
                Some(n) => n,
                None => match parse_spec(before_dash(range), 0, usize::MAX as int) {
                    Some(n) => n,
                    None => 0,
                },
            }
        },
        None => 0,
    }
}

/// The length to which a modifier cuts names, or zero for no cut.
pub fn parse_name_max_len(modifier: &[char]) -> (r: usize)
    ensures
        r == name_width(modifier@),
{
    match find(modifier, ',', 0) {
        Some(i) => {
            let range = part(modifier, i + 1, modifier.len());
            assert(range@ =~= modifier@.skip(i + 1));
            let last = match rfind(range.as_slice(), '-') {
                Some(k) => part(range.as_slice(), k + 1, range.len()),
                None => part(range.as_slice(), 0, range.len()),
            };
            assert(last@ =~= match rfind_char(range@, '-', range@.len() as int) {
                Some(k) => range@.skip(k + 1),
                None => range@,
            });
            match parse_int(last.as_slice(), 0, usize::MAX as i128) {
                Some(n) => {
                    return n as usize;
                },
                None => {},
            }
            let first = match find(range.as_slice(), '-', 0) {
                Some(k) => part(range.as_slice(), 0, k),
                None => part(range.as_slice(), 0, range.len()),
            };
            assert(first@ =~= before_dash(range@));
            match parse_int(first.as_slice(), 0, usize::MAX as i128) {
                Some(n) => n as usize,
                None => 0,
            }
        },
        None => 0,
    }
}

/// Length of a name, cut to a width, that a text begins with whatever its case.
pub open spec fn name_at(s: Seq<char>, name: Seq<char>, width: int) -> Option<int> {
    let w = if 0 < width < name.len() {
        width
    } else {
        name.len() as int
    };
    if s.len() >= w && lowercase(s.take(w)) == lowercase(name.take(w)) {
        Some(w)
    } else {
        None
    }
}

fn match_name(s: &[char], name: &str, width: usize) -> (r: Option<usize>)
    ensures
        match r {
            Some(w) => name_at(s@, name@, width as int) == Some(w as int) && w <= s@.len(),
            None => name_at(s@, name@, width as int) is None,
        },
{
    let n = chars_of(name);
    let w: usize = if 0 < width && width < n.len() {
        width
    } else {
        n.len()
    };
    if s.len() < w {
        return None;
    }
    let a = part(s, 0, w);
    let b = part(n.as_slice(), 0, w);
    assert(a@ =~= s@.take(w as int));
    assert(b@ =~= name@.take(w as int));
    let la = lower_chars(a.as_slice());
    let lb = lower_chars(b.as_slice());
    if same(la.as_slice(), lb.as_slice()) {
        Some(w)
    } else {
        None
    }
}

/// The first month from `m` on whose name a text begins with.
pub open spec fn month_at(s: Seq<char>, width: int, m: int) -> Option<(int, int)>
    decreases 13 - m,
{
    if m > 12 {
        None
    } else {
        match name_at(s, month_name(m), width) {
            Some(w) => Some((m, w)),
            None => month_at(s, width, m + 1),
        }
    }
}

/// The month whose name a text begins with.
pub fn parse_month_name(s: &[char], modifier: &[char]) -> (r: Option<(i64, usize)>)
    ensures
        reads(r, month_at(s@, name_width(modifier@), 1), s@.len()),
{
    let width: usize = parse_name_max_len(modifier);
    let mut m: i64 = 1;
    while m <= 12
        invariant
            1 <= m <= 13,
            width == name_width(modifier@),
            month_at(s@, width as int, 1) == month_at(s@, width as int, m as int),
        decreases 13 - m,
    {
        match match_name(s, month_text(m), width) {
            Some(w) => {
                return Some((m, w));
            },
            None => {},
        }
        m = m + 1;
    }
    None
}

/// Count of characters from `i` on whose lower-case forms make up `n` characters.
pub open spec fn covering(s: Seq<char>, i: int, n: int) -> int
    decreases s.len() - i,
{
    if n <= 0 || i < 0 || i >= s.len() {
        i
    } else {
        covering(s, i + 1, n - char_lowercase(s[i]).len())
    }
}

/// A number in words at the front of a text.
pub open spec fn words_value(s: Seq<char>) -> Option<(int, int)> {
    let (n, v) = words_at(lowercase(s));
    if n > 0 {
        Some((v, covering(s, 0, n)))
    } else {
        None
    }
}

fn read_words(s: &[char]) -> (r: Option<(i64, usize)>)
    ensures
        reads(r, words_value(s@), s@.len()),
{
    let (n, v) = parse_word_number_from_string(s);
    if n == 0 {
        return None;
    }
    let mut left: usize = n;
    let mut i: usize = 0;
    while i < s.len() && left > 0
        invariant
            i <= s.len(),
            covering(s@, 0, n as int) == covering(s@, i as int, left as int),
        decreases s.len() - i,
    {
        let l: usize = std_char_lowercase(s[i]).len();
        if l >= left {
            assert(covering(s@, i + 1, left - l) == i + 1);
            left = 0;
        } else {
            left = left - l;
        }
        i = i + 1;
    }
    Some((v, i))
}

/// A number in words at the front of a text: its value and the count of
/// characters, or -1 for both.
pub fn parse_word_number(s: &[char]) -> (r: (i64, i64))
    requires
        s@.len() <= i64::MAX,
    ensures
        (r.0 as int, r.1 as int) == match words_value(s@) {
            Some(p) => p,
            None => (-1, -1),
        },
{
    match read_words(s) {
        Some((v, n)) => (v, n as i64),
        None => (-1, -1),
    }
}

/// Whether a modifier asks for a name.
pub open spec fn names(modifier: Seq<char>) -> bool {
    modifier == "n"@ || (modifier.len() > 0 && modifier[0] == 'N')
}

fn is_names(modifier: &[char]) -> (r: bool)
    ensures
        r == names(modifier@),
{
    is_text(modifier, "n") || (modifier.len() > 0 && modifier[0] == 'N')
}

/// Whether a modifier asks for words.
pub open spec fn in_words(modifier: Seq<char>) -> bool {
    ||| modifier == "w"@
    ||| modifier == "W"@
    ||| occurs_at(modifier, "wo"@, 0)
    ||| occurs_at(modifier, "Wo"@, 0)
    ||| occurs_at(modifier, "Ww"@, 0)
    ||| occurs_at(modifier, "ww"@, 0)
}

/// The value of a component at the front of a text, as its modifier has it
/// written, and the count of characters.
pub open spec fn token_value(s: Seq<char>, modifier: Seq<char>) -> Option<(int, int)> {
    if s.len() == 0 {
        None
    } else if modifier == "I"@ || modifier == "i"@ {
        roman_at(s)
    } else if modifier == "a"@ || modifier == "A"@ {
        letters_from(s, 0, 0)
    } else if names(modifier) {
        month_at(s, name_width(modifier), 1)
    } else if in_words(modifier) {
        words_value(s)
    } else if modifier.len() > 0 && modifier.last() == 'o' {
        ordinal_value(s)
    } else {
        numeric_value(s, modifier)
    }
}

/// The value of a component at the front of a text.
pub fn parse_token_value(s: &[char], modifier: &[char]) -> (r: Option<(i64, usize)>)
    ensures
        reads(r, token_value(s@, modifier@), s@.len()),
{
    if s.len() == 0 {
        return None;
    }
    if is_text(modifier, "I") || is_text(modifier, "i") {
        return parse_roman(s);
    }
    if is_text(modifier, "a") || is_text(modifier, "A") {
        return parse_alphabetic(s);
    }
    if is_names(modifier) {
        return parse_month_name(s, modifier);
    }
    if is_text(modifier, "w") || is_text(modifier, "W") || starts_with(modifier, "wo") || starts_with(modifier, "Wo")
        || starts_with(modifier, "Ww") || starts_with(modifier, "ww") {
        return read_words(s);
    }
    if modifier.len() > 0 && modifier[modifier.len() - 1] == 'o' {
        return parse_ordinal_number(s);
    }
    parse_numeric_value(s, modifier)
}

/// Length of the name of the first day of the week, from `d` on, that a text
/// begins with.
pub open spec fn weekday_at(s: Seq<char>, width: int, d: int) -> Option<int>
    decreases 7 - d,
{
    if d > 6 {
        None
    } else {
        match name_at(s, weekday_name(d), width) {
            Some(w) => Some(w),
            None => weekday_at(s, width, d + 1),
        }
    }
}

/// Length of the name of a day, or else of the digits, that a text begins with.
pub open spec fn name_or_number(s: Seq<char>, modifier: Seq<char>) -> int {
    if s.len() > 0 && names(modifier) && weekday_at(s, name_width(modifier), 0) is Some {
        weekday_at(s, name_width(modifier), 0)->0
    } else {
        digit_run(s, 0) as int
    }
}

/// Length of the name of a day, or else of the digits, that a text begins with.
pub fn consume_name_or_number(s: &[char], modifier: &[char]) -> (r: usize)
    ensures
        r == name_or_number(s@, modifier@),
        r <= s@.len(),
{
    if s.len() == 0 {
        return 0;
    }
    if is_names(modifier) {
        let width: usize = parse_name_max_len(modifier);
        let mut d: u8 = 0;
        while d < 7
            invariant
                d <= 7,
                s@.len() > 0,
                names(modifier@),
                width == name_width(modifier@),
                weekday_at(s@, width as int, 0) == weekday_at(s@, width as int, d as int),
            decreases 7 - d,
        {
            match match_name(s, weekday_text(d), width) {
                Some(w) => {
                    return w;
                },
                None => {},
            }
            d = d + 1;
        }
    }
    digits_end(s, 0)
}

// ── Pictures ─────────────────────────────────────────────────────────────────

/// A piece of a picture: a component with its modifier, or a literal character.
pub struct PicturePart {
    pub is_token: bool,
    /// The component, or the literal character.
    pub component: char,
    pub modifier: Vec<char>,
}

/// A piece of a picture, as contracts speak of it.
#[verifier::ext_equal]
pub struct Piece {
    pub token: bool,
    pub component: char,
    pub modifier: Seq<char>,
}

impl View for PicturePart {
    type V = Piece;

    open spec fn view(&self) -> Piece {
        Piece { token: self.is_token, component: self.component, modifier: self.modifier@ }
    }
}

pub open spec fn views(s: Seq<PicturePart>) -> Seq<Piece> {
    s.map_values(|p: PicturePart| p@)
}

/// Whether a character names a component.
pub open spec fn known_component(c: char) -> bool {
    ||| c == 'Y'
    ||| c == 'M'
    ||| c == 'D'
    ||| c == 'd'
    ||| c == 'H'
    ||| c == 'h'
    ||| c == 'm'
    ||| c == 's'
    ||| c == 'f'
    ||| c == 'F'
    ||| c == 'Z'
    ||| c == 'z'
    ||| c == 'P'
    ||| c == 'C'
    ||| c == 'E'
    ||| c == 'W'
    ||| c == 'w'
    ||| c == 'X'
    ||| c == 'x'
}

fn is_component(c: char) -> (r: bool)
    ensures
        r == known_component(c),
{
    match c {
        'Y' | 'M' | 'D' | 'd' | 'H' | 'h' | 'm' | 's' | 'f' | 'F' | 'Z' | 'z' | 'P' | 'C' | 'E' | 'W' | 'w' | 'X'
        | 'x' => true,
        _ => false,
    }
}

/// A piece put in front of others, if there are any.
pub open spec fn with_first(
    first: Seq<Piece>,
    rest: Result<Option<Seq<Piece>>, Seq<char>>,
) -> Result<Option<Seq<Piece>>, Seq<char>> {
    match rest {
        Ok(Some(t)) => Ok(Some(first + t)),
        other => other,
    }
}

pub open spec fn literal(c: char) -> Piece {
    Piece { token: false, component: c, modifier: Seq::empty() }
}

/// The pieces of a picture from position `i` on: none where a marker is not
/// closed, an error where a marker is not valid.
pub open spec fn pieces(p: Seq<char>, i: int) -> Result<Option<Seq<Piece>>, Seq<char>>
    decreases p.len() - i,
    when 0 <= i
    via pieces_decreases
{
    if i >= p.len() {
        Ok(Some(Seq::empty()))
    } else if p[i] == '[' {
        if i + 1 < p.len() && p[i + 1] == '[' {
            with_first(seq![literal('[')], pieces(p, i + 2))
        } else {
            match find_char(p, ']', i + 1) {
                None => Ok(None),
                Some(j) => {
                    let t = squeezed(p.subrange(i + 1, j));
                    if t.len() == 0 {
                        pieces(p, j + 1)
                    } else if !known_component(t[0]) {
                        Err("D3132"@)
                    } else if t[0] == 'Y' && t.skip(1) == "N"@ {
                        Err("D3133"@)
                    } else {
                        with_first(
                            seq![Piece { token: true, component: t[0], modifier: t.skip(1) }],
                            pieces(p, j + 1),
                        )
                    }
                },
            }
        }
    } else if p[i] == ']' && i + 1 < p.len() && p[i + 1] == ']' {
        with_first(seq![literal(']')], pieces(p, i + 2))
    } else {
        with_first(seq![literal(p[i])], pieces(p, i + 1))
    }
}

#[via_fn]
proof fn pieces_decreases(p: Seq<char>, i: int) {
    if i < p.len() {
        lemma_find_after(p, ']', i + 1);
    }
}

proof fn lemma_with_first(a: Seq<Piece>, b: Seq<Piece>, r: Result<Option<Seq<Piece>>, Seq<char>>)
    ensures
        with_first(a, with_first(b, r)) == with_first(a + b, r),
{
    match r {
        Ok(Some(t)) => {
            assert(a + (b + t) =~= (a + b) + t);
        },
        _ => {},
    }
}

pub open spec fn out_pieces(r: Result<Option<Vec<PicturePart>>, JsonataError>) -> Result<
    Option<Seq<Piece>>,
    Seq<char>,
> {
    match r {
        Ok(Some(v)) => Ok(Some(views(v@))),
        Ok(None) => Ok(None),
        Err(e) => Err(e.code@),
    }
}

proof fn lemma_views_push(s: Seq<PicturePart>, p: PicturePart)
    ensures
        views(s.push(p)) == views(s) + seq![p@],
{
    assert(views(s.push(p)) =~= views(s) + seq![p@]);
}

/// Split a picture into its pieces.
fn split_parts(p: &[char]) -> (r: Result<Option<Vec<PicturePart>>, JsonataError>)
    ensures
        out_pieces(r) == pieces(p@, 0),
{
    let mut parts: Vec<PicturePart> = Vec::new();
    let mut i: usize = 0;
    let ghost whole = pieces(p@, 0);
    assert(views(parts@) =~= Seq::<Piece>::empty());
    assert(whole == with_first(views(parts@), whole)) by {
        match whole {
            Ok(Some(t)) => {
                assert(Seq::<Piece>::empty() + t =~= t);
            },
            _ => {},
        }
    }
    while i < p.len()
        invariant
            i <= p.len(),
            whole == pieces(p@, 0),
            whole == with_first(views(parts@), pieces(p@, i as int)),
        decreases p.len() - i,
    {
        let c: char = p[i];
        let ghost done = parts@;
        if c == '[' {
            if i + 1 < p.len() && p[i + 1] == '[' {
                let piece = PicturePart { is_token: false, component: '[', modifier: Vec::new() };
                proof {
                    assert(piece@ =~= literal('['));
                    lemma_views_push(done, piece);
                    lemma_with_first(views(done), seq![piece@], pieces(p@, i + 2));
                }
                parts.push(piece);
                i = i + 2;
            } else {
                match find(p, ']', i + 1) {
                    None => {
                        return Ok(None);
                    },
                    Some(j) => {
                        let t = squeeze(p, i + 1, j);
                        if t.len() > 0 {
                            if !is_component(t[0]) {
                                return Err(
                                    JsonataError::about("D3132", "$toMillis: unknown picture component '", &[t[0]], "'"),
                                );
                            }
                            let modifier = part(t.as_slice(), 1, t.len());
                            assert(modifier@ =~= t@.skip(1));
                            if t[0] == 'Y' && is_text(modifier.as_slice(), "N") {
                                return Err(
                                    JsonataError::new(
                                        "D3133",
                                        "$toMillis: the picture string is not valid: unsupported modifier [YN]",
                                    ),
                                );
                            }
                            let piece = PicturePart { is_token: true, component: t[0], modifier };
                            proof {
                                lemma_views_push(done, piece);
                                lemma_with_first(views(done), seq![piece@], pieces(p@, j + 1));
                            }
                            parts.push(piece);
                        }
                        i = j + 1;
                    },
                }
            }
        } else {
            let doubled: bool = c == ']' && i + 1 < p.len() && p[i + 1] == ']';
            let piece = PicturePart { is_token: false, component: c, modifier: Vec::new() };
            let step: usize = if doubled {
                2
            } else {
                1
            };
            proof {
                assert(piece@ =~= literal(c));
                lemma_views_push(done, piece);
                lemma_with_first(views(done), seq![piece@], pieces(p@, i + step));
            }
            parts.push(piece);
            i = i + step;
        }
    }
    assert(views(parts@) + Seq::<Piece>::empty() =~= views(parts@));
    Ok(Some(parts))
}

/// Whether a picture holds a component.
pub open spec fn mentions(s: Seq<Piece>, c: char) -> bool {
    exists|i: int| 0 <= i < s.len() && (#[trigger] s[i]).token && s[i].component == c
}

/// Whether a picture holds any component.
pub open spec fn has_token(s: Seq<Piece>) -> bool {
    exists|i: int| 0 <= i < s.len() && (#[trigger] s[i]).token
}

fn holds(parts: &Vec<PicturePart>, c: char) -> (r: bool)
    ensures
        r == mentions(views(parts@), c),
{
    let mut i: usize = 0;
    let ghost v = views(parts@);
    while i < parts.len()
        invariant
            i <= parts.len(),
            v == views(parts@),
            forall|k: int| 0 <= k < i ==> !((#[trigger] v[k]).token && v[k].component == c),
        decreases parts.len() - i,
    {
        assert(v[i as int] == parts@[i as int]@);
        if parts[i].is_token && parts[i].component == c {
            return true;
        }
        i = i + 1;
    }
    false
}

fn holds_token(parts: &Vec<PicturePart>) -> (r: bool)
    ensures
        r == has_token(views(parts@)),
{
    let mut i: usize = 0;
    let ghost v = views(parts@);
    while i < parts.len()
        invariant
            i <= parts.len(),
            v == views(parts@),
            forall|k: int| 0 <= k < i ==> !(#[trigger] v[k]).token,
        decreases parts.len() - i,
    {
        assert(v[i as int] == parts@[i as int]@);
        if parts[i].is_token {
            return true;
        }
        i = i + 1;
    }
    false
}

/// What has been read of a date and time.
#[derive(Clone, Copy, Debug)]
pub struct Fields {
    /// Position in the text.
    pub pos: usize,
    pub civil: Civil,
    pub millis: i32,
    pub day_of_year: i64,
    /// Offset from UTC, in seconds.
    pub tz: i32,
    pub pm: bool,
    /// Whether the hour was of a twelve-hour clock.
    pub twelve: bool,
    pub has_tz: bool,
    pub has_year: bool,
}

pub open spec fn no_fields() -> Fields {
    Fields {
        pos: 0,
        civil: Civil { year: 0, month: 0, day: 0, hour: 0, minute: 0, second: 0 },
        millis: 0,
        day_of_year: 0,
        tz: 0,
        pm: false,
        twelve: false,
        has_tz: false,
        has_year: false,
    }
}

pub open spec fn fields_ok(f: Fields, len: nat) -> bool {
    &&& f.pos <= len
    &&& f.civil.month > i64::MIN
    &&& f.day_of_year > i64::MIN
    &&& -400_000 <= f.tz <= 400_000
}

/// Whether a component is a number that `token_value` reads.
pub open spec fn numeric_component(c: char) -> bool {
    c == 'Y' || c == 'X' || c == 'M' || c == 'D' || c == 'd' || c == 'H' || c == 'h' || c == 'm' || c == 's' || c
        == 'f'
}

/// The fields after a number was read for a component.
pub open spec fn stored(f: Fields, c: char, v: int, n: int) -> Option<Fields> {
    let g = Fields { pos: (f.pos + n) as usize, ..f };
    if c == 'Y' || c == 'X' {
        if i32::MIN <= v <= i32::MAX {
            Some(Fields { has_year: true, civil: Civil { year: v as i32, ..f.civil }, ..g })
        } else {
            None
        }
    } else if c == 'M' {
        Some(Fields { civil: Civil { month: v as i64, ..f.civil }, ..g })
    } else if c == 'D' {
        Some(Fields { civil: Civil { day: v as i64, ..f.civil }, ..g })
    } else if c == 'd' {
        Some(Fields { day_of_year: v as i64, ..g })
    } else if c == 'H' {
        Some(Fields { civil: Civil { hour: v as i64, ..f.civil }, ..g })
    } else if c == 'h' {
        Some(Fields { twelve: true, civil: Civil { hour: v as i64, ..f.civil }, ..g })
    } else if c == 'm' {
        Some(Fields { civil: Civil { minute: v as i64, ..f.civil }, ..g })
    } else if c == 's' {
        Some(Fields { civil: Civil { second: v as i64, ..f.civil }, ..g })
    } else {
        Some(Fields { millis: wrapped_i32(frac_ms(v, n)) as i32, ..g })
    }
}

/// The fields after one piece of a picture, or nothing where the text does not
/// fit it.
pub open spec fn advanced(s: Seq<char>, p: Piece, f: Fields) -> Option<Fields> {
    let rest = s.skip(f.pos as int);
    let c = p.component;
    if !p.token {
        if rest.len() > 0 && char_lowercase(rest[0])[0] == char_lowercase(c)[0] {
            Some(Fields { pos: (f.pos + 1) as usize, ..f })
        } else {
            None
        }
    } else if numeric_component(c) {
        match token_value(rest, p.modifier) {
            Some((v, n)) => stored(f, c, v, n),
            None => None,
        }
    } else if c == 'P' {
        let l = lowercase(rest.take(2));
        if rest.len() < 2 || (l != "am"@ && l != "pm"@) {
            None
        } else {
            Some(Fields { pos: (f.pos + 2) as usize, pm: l == "pm"@, ..f })
        }
    } else if c == 'F' || c == 'W' || c == 'w' || c == 'x' {
        Some(Fields { pos: (f.pos + name_or_number(rest, p.modifier)) as usize, ..f })
    } else if c == 'Z' || c == 'z' {
        let (offset, n) = zone_at(rest);
        if n > 0 {
            Some(Fields { pos: (f.pos + n) as usize, tz: offset as i32, has_tz: true, ..f })
        } else {
            Some(f)
        }
    } else {
        Some(f)
    }
}

/// The fields after all pieces from `k` on.
pub open spec fn run_pieces(s: Seq<char>, ps: Seq<Piece>, k: int, f: Fields) -> Option<Fields>
    decreases ps.len() - k,
{
    if k < 0 || k >= ps.len() {
        Some(f)
    } else {
        match advanced(s, ps[k], f) {
            Some(g) => run_pieces(s, ps, k + 1, g),
            None => None,
        }
    }
}

fn store(f: &Fields, c: char, v: i64, n: usize) -> (r: Option<Fields>)
    requires
        numeric_component(c),
        f.pos + n <= usize::MAX,
    ensures
        r == stored(*f, c, v as int, n as int),
{
    let mut g = *f;
    g.pos = f.pos + n;
    match c {
        'Y' | 'X' => {
            if v < i32::MIN as i64 || v > i32::MAX as i64 {
                return None;
            }
            g.has_year = true;
            g.civil.year = v as i32;
        },
        'M' => {
            g.civil.month = v;
        },
        'D' => {
            g.civil.day = v;
        },
        'd' => {
            g.day_of_year = v;
        },
        'H' => {
            g.civil.hour = v;
        },
        'h' => {
            g.twelve = true;
            g.civil.hour = v;
        },
        'm' => {
            g.civil.minute = v;
        },
        's' => {
            g.civil.second = v;
        },
        _ => {
            g.millis = normalize_frac_to_ms(v, n);
        },
    }
    Some(g)
}

fn advance(s: &[char], p: &PicturePart, f: &Fields) -> (r: Option<Fields>)
    requires
        fields_ok(*f, s@.len()),
    ensures
        r == advanced(s@, p@, *f),
        r is Some ==> fields_ok(r->0, s@.len()),
{
    let len: usize = s.len();
    let rest = part(s, f.pos, len);
    assert(rest@ =~= s@.skip(f.pos as int));
    let c: char = p.component;
    let mut g = *f;
    if !p.is_token {
        if rest.len() == 0 {
            return None;
        }
        let a = std_char_lowercase(rest[0]);
        let b = std_char_lowercase(c);
        if a[0] != b[0] {
            return None;
        }
        g.pos = f.pos + 1;
        return Some(g);
    }
    match c {
        'Y' | 'X' | 'M' | 'D' | 'd' | 'H' | 'h' | 'm' | 's' | 'f' => match parse_token_value(
            rest.as_slice(),
            p.modifier.as_slice(),
        ) {
            Some((v, n)) => store(f, c, v, n),
            None => None,
        },
        'P' => {
            if rest.len() < 2 {
                return None;
            }
            let two = part(rest.as_slice(), 0, 2);
            assert(two@ =~= rest@.take(2));
            let l = lower_chars(two.as_slice());
            let pm: bool = is_text(l.as_slice(), "pm");
            if !pm && !is_text(l.as_slice(), "am") {
                return None;
            }
            g.pm = pm;
            g.pos = f.pos + 2;
            Some(g)
        },
        'F' | 'W' | 'w' | 'x' => {
            let n: usize = consume_name_or_number(rest.as_slice(), p.modifier.as_slice());
            g.pos = f.pos + n;
            Some(g)
        },
        'Z' | 'z' => {
            let (offset, n) = parse_tz_from_input(rest.as_slice());
            if n > 0 {
                g.tz = offset;
                g.has_tz = true;
                g.pos = f.pos + n;
            }
            Some(g)
        },
        _ => Some(g),
    }
}

/// The error that a picture gives for leaving out a component that another
/// one needs.
pub open spec fn underspecified(ps: Seq<Piece>) -> bool {
    ||| mentions(ps, 'D') && !mentions(ps, 'M') && !mentions(ps, 'd')
    ||| (mentions(ps, 'm') || mentions(ps, 's')) && !mentions(ps, 'H') && !mentions(ps, 'h')
    ||| mentions(ps, 'X') && !mentions(ps, 'Y')
}

/// The hour on a twenty-four-hour clock, held within 64 bits.
pub open spec fn full_hour(f: Fields) -> int {
    let h = f.civil.hour as int;
    if f.twelve && f.pm && h != 12 {
        if h + 12 > i64::MAX {
            i64::MAX as int
        } else {
            h + 12
        }
    } else if f.twelve && !f.pm && h == 12 {
        0
    } else {
        h
    }
}

/// Seconds from milliseconds, towards zero.
pub open spec fn whole_seconds(ms: int) -> int {
    if ms < 0 {
        -((-ms) / 1000)
    } else {
        ms / 1000
    }
}

/// The date of a time in epoch milliseconds.
pub open spec fn today(now: int) -> (int, int, int) {
    date_of(whole_seconds(now) / 86400)
}

/// The civil time that fields stand for: today's date where no year was given
/// with the time of day, the first month and day where none was given.
pub open spec fn completed(f: Fields, timed: bool, now: int) -> Civil {
    let hour = full_hour(f) as i64;
    if !f.has_year && timed {
        let (y, m, d) = today(now);
        Civil { year: y as i32, month: m as i64, day: d as i64, hour, ..f.civil }
    } else {
        Civil { hour, ..f.civil }
    }
}

/// Epoch milliseconds of a day of a year.
pub open spec fn day_of_year_ms(c: Civil, doy: int, ms: int) -> Option<int> {
    match civil_ms(Civil { month: 1, day: 1, ..c }, ms) {
        Some(first) => if in_i64((doy - 1) * 86_400_000) && in_i64(first + (doy - 1) * 86_400_000) {
            Some(first + (doy - 1) * 86_400_000)
        } else {
            None
        },
        None => None,
    }
}

/// Epoch milliseconds of what was read.
pub open spec fn fields_ms(f: Fields, timed: bool, now: int) -> Option<int> {
    let c = completed(f, timed, now);
    if f.day_of_year > 0 {
        to_utc(day_of_year_ms(c, f.day_of_year as int, f.millis as int), f.tz as int)
    } else {
        let month = if c.month == 0 {
            1
        } else {
            c.month
        };
        let day = if c.day == 0 {
            1
        } else {
            c.day
        };
        let ms = civil_ms(Civil { month, day, ..c }, f.millis as int);
        if f.has_tz {
            to_utc(ms, f.tz as int)
        } else {
            ms
        }
    }
}

/// What a picture makes of a text at a time: epoch milliseconds, nothing, or
/// the code of an error.
pub open spec fn picture_ms(s: Seq<char>, picture: Seq<char>, now: int) -> Result<Option<int>, Seq<char>> {
    match pieces(picture, 0) {
        Err(e) => Err(e),
        Ok(None) => Ok(None),
        Ok(Some(ps)) => if !has_token(ps) {
            Ok(None)
        } else if underspecified(ps) {
            Err("D3136"@)
        } else {
            match run_pieces(s, ps, 0, no_fields()) {
                None => Ok(None),
                Some(f) => Ok(fields_ms(f, mentions(ps, 'H') || mentions(ps, 'h') || mentions(ps, 'm'), now)),
            }
        },
    }
}

pub open spec fn out_ms(r: Result<Option<i64>, JsonataError>) -> Result<Option<int>, Seq<char>> {
    match r {
        Ok(Some(v)) => Ok(Some(v as int)),
        Ok(None) => Ok(None),
        Err(e) => Err(e.code@),
    }
}

/// Epoch milliseconds of a day of a year.
pub fn date_to_ms_with_doy(c: &Civil, doy: i64, ms: i32) -> (r: Option<i64>)
    requires
        doy > i64::MIN,
    ensures
        is_same(r, day_of_year_ms(*c, doy as int, ms as int)),
{
    let mut d = *c;
    d.month = 1;
    d.day = 1;
    match ms_of_civil(&d, ms as i64) {
        Some(first) => match (doy - 1).checked_mul(86_400_000) {
            Some(x) => first.checked_add(x),
            None => None,
        },
        None => None,
    }
}

fn complete(f: &Fields, timed: bool, now: i64) -> (r: Civil)
    requires
        f.civil.month > i64::MIN,
    ensures
        r == completed(*f, timed, now as int),
        r.month > i64::MIN,
{
    let mut c = f.civil;
    if f.twelve {
        if f.pm && c.hour != 12 {
            c.hour = if c.hour > i64::MAX - 12 {
                i64::MAX
            } else {
                c.hour + 12
            };
        } else if !f.pm && c.hour == 12 {
            c.hour = 0;
        }
    }
    if !f.has_year && timed {
        let secs: i64 = if now < 0 {
            if now == i64::MIN {
                -9_223_372_036_854_775
            } else {
                -(-now / 1000)
            }
        } else {
            now / 1000
        };
        proof {
            super::calendar::lemma_has_date(secs as int / 86400);
        }
        let (y, m, d, h, mi, s) = secs_to_ymd_hms(secs);
        proof {
            let day = super::calendar::epoch_day(y as int, m as int, d as int);
            assert(secs as int / 86400 == day);
            lemma_date_unique(y as int, m as int, d as int);
        }
        c.year = y;
        c.month = m as i64;
        c.day = d as i64;
    }
    c
}

fn fields_to_ms(f: &Fields, timed: bool, now: i64) -> (r: Option<i64>)
    requires
        f.civil.month > i64::MIN,
        f.day_of_year > i64::MIN,
        -400_000 <= f.tz <= 400_000,
    ensures
        is_same(r, fields_ms(*f, timed, now as int)),
{
    let mut c = complete(f, timed, now);
    if f.day_of_year > 0 {
        return shift_to_utc(date_to_ms_with_doy(&c, f.day_of_year, f.millis), f.tz as i64);
    }
    if c.month == 0 {
        c.month = 1;
    }
    if c.day == 0 {
        c.day = 1;
    }
    let ms = ms_of_civil(&c, f.millis as i64);
    if f.has_tz {
        shift_to_utc(ms, f.tz as i64)
    } else {
        ms
    }
}

/// What a picture makes of a text, with `now` as the current time in epoch
/// milliseconds.
pub fn parse_with_picture_at(s: &[char], picture: &[char], now: i64) -> (r: Result<Option<i64>, JsonataError>)
    ensures
        out_ms(r) == picture_ms(s@, picture@, now as int),
{
    let parts = match split_parts(picture) {
        Ok(Some(parts)) => parts,
        Ok(None) => {
            return Ok(None);
        },
        Err(e) => {
            return Err(e);
        },
    };
    let ghost ps = views(parts@);
    if !holds_token(&parts) {
        return Ok(None);
    }
    let has_hour: bool = holds(&parts, 'H') || holds(&parts, 'h');
    let has_min: bool = holds(&parts, 'm');
    if holds(&parts, 'D') && !holds(&parts, 'M') && !holds(&parts, 'd') {
        return Err(
            JsonataError::new("D3136", "$toMillis: the date/time picture is underspecified; missing month component"),
        );
    }
    if (has_min || holds(&parts, 's')) && !has_hour {
        return Err(
            JsonataError::new("D3136", "$toMillis: the date/time picture is underspecified; missing hour component"),
        );
    }
    if holds(&parts, 'X') && !holds(&parts, 'Y') {
        return Err(
            JsonataError::new(
                "D3136",
                "$toMillis: the date/time picture is underspecified; week-based year requires full calendar date",
            ),
        );
    }
    let mut f = Fields {
        pos: 0,
        civil: Civil { year: 0, month: 0, day: 0, hour: 0, minute: 0, second: 0 },
        millis: 0,
        day_of_year: 0,
        tz: 0,
        pm: false,
        twelve: false,
        has_tz: false,
        has_year: false,
    };
    let mut k: usize = 0;
    while k < parts.len()
        invariant
            k <= parts.len(),
            ps == views(parts@),
            pieces(picture@, 0) == Ok::<Option<Seq<Piece>>, Seq<char>>(Some(ps)),
            has_token(ps),
            !underspecified(ps),
            fields_ok(f, s@.len()),
            run_pieces(s@, ps, 0, no_fields()) == run_pieces(s@, ps, k as int, f),
        decreases parts.len() - k,
    {
        assert(ps[k as int] == parts@[k as int]@);
        match advance(s, &parts[k], &f) {
            Some(g) => {
                f = g;
            },
            None => {
                return Ok(None);
            },
        }
        k = k + 1;
    }
    Ok(fields_to_ms(&f, has_hour || has_min, now))
}

} // verus!
