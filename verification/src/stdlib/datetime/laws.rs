//! `$toMillis` undoes `$fromMillis`.
use vstd::prelude::*;

use super::calendar::{
    days_before_month, days_before_year, epoch_day, in_i64, law_epoch_day_injective, lemma_year_length,
    lemma_years_ordered, month_days, valid_date, weekday,
};
use super::format::{is_moment, iso_base, iso_text, lemma_moment_unique, moment_of, Moment};
use super::parse::{civil_at, civil_ms, iso_fraction, iso_millis, iso_with_zone, iso_zone, Civil};
use super::tz::{abs_of, ascii_only, offset_text, zero_padded};
use super::{from_millis, to_millis, zone_arg};
use crate::number::{law_whole_numbers_come_back, Number};
use crate::stdlib::args::arg;
use crate::text::{
    all_digits, digit_run, find_char, is_digit, lemma_nat_text, lemma_nat_text_len, nat_text, number_of, parse_spec,
};
use crate::value::Val;

verus! {

// ── Dates ────────────────────────────────────────────────────────────────────

/// The date of a day from a year on.
proof fn lemma_year_found(day: int, y: int) -> (r: int)
    requires
        epoch_day(y, 1, 1) <= day,
    ensures
        y <= r,
        epoch_day(r, 1, 1) <= day < epoch_day(r + 1, 1, 1),
    decreases day - epoch_day(y, 1, 1),
{
    reveal_with_fuel(days_before_month, 2);
    lemma_years_ordered(y, y + 1);
    if day < epoch_day(y + 1, 1, 1) {
        y
    } else {
        lemma_year_found(day, y + 1)
    }
}

/// The month of a day of a year, from a month on.
proof fn lemma_month_found(y: int, day: int, m: int) -> (r: int)
    requires
        1 <= m <= 12,
        epoch_day(y, m, 1) <= day < epoch_day(y + 1, 1, 1),
    ensures
        1 <= r <= 12,
        epoch_day(y, r, 1) <= day < epoch_day(y, r, 1) + month_days(y, r),
    decreases 12 - m,
{
    lemma_year_length(y);
    assert(days_before_month(y, m + 1) == days_before_month(y, m) + month_days(y, m));
    assert(days_before_month(y + 1, 1) == 0);
    if day < epoch_day(y, m, 1) + month_days(y, m) {
        m
    } else {
        if m == 12 {
            assert(false);
        }
        lemma_month_found(y, day, m + 1)
    }
}

/// Every day from a year on has a date.
proof fn lemma_date_found(day: int, y: int) -> (r: (int, int, int))
    requires
        epoch_day(y, 1, 1) <= day,
    ensures
        valid_date(r.0, r.1, r.2),
        epoch_day(r.0, r.1, r.2) == day,
        y <= r.0,
        epoch_day(r.0, 1, 1) <= day,
{
    let yy = lemma_year_found(day, y);
    let m = lemma_month_found(yy, day, 1);
    (yy, m, day - epoch_day(yy, m, 1) + 1)
}

/// Whether a date is on a day.
pub open spec fn falls_on(y: int, m: int, d: int, day: int) -> bool {
    valid_date(y, m, d) && epoch_day(y, m, d) == day
}

/// Every day has a date, and only one.
pub proof fn law_every_day_has_one_date(day: int)
    ensures
        exists|y: int, m: int, d: int| #[trigger] falls_on(y, m, d, day),
        forall|y: int, m: int, d: int, y2: int, m2: int, d2: int| #[trigger]
            falls_on(y, m, d, day) && #[trigger] falls_on(y2, m2, d2, day) ==> y == y2 && m == m2 && d == d2,
{
    let y0 = if day < 0 {
        day
    } else {
        -day
    };
    lemma_years_ordered(y0, 1);
    reveal(days_before_year);
    reveal_with_fuel(days_before_month, 2);
    let (y, m, d) = lemma_date_found(day, y0);
    assert(falls_on(y, m, d, day));
    assert forall|y: int, m: int, d: int, y2: int, m2: int, d2: int| #[trigger]
        falls_on(y, m, d, day) && #[trigger] falls_on(y2, m2, d2, day) implies y == y2 && m == m2 && d == d2 by {
        law_epoch_day_injective(y, m, d, y2, m2, d2);
    }
}

/// The first millisecond of year 0, and the first of year 10000.
pub const FIRST_MS: i64 = -62_167_219_200_000;

pub const END_MS: i64 = 253_402_300_800_000;

proof fn lemma_bounds()
    ensures
        epoch_day(0, 1, 1) * 86_400_000 == FIRST_MS,
        epoch_day(10000, 1, 1) * 86_400_000 == END_MS,
{
    reveal(days_before_year);
    reveal_with_fuel(days_before_month, 2);
}

/// Every time within those years is a moment.
proof fn lemma_moment_found(local: int, tz: int) -> (m: Moment)
    requires
        FIRST_MS <= local < END_MS,
        i32::MIN < tz <= i32::MAX,
    ensures
        is_moment(m, local, tz),
        0 <= m.year <= 9999,
{
    lemma_bounds();
    let day = local / 86_400_000;
    let rest = local % 86_400_000;
    assert(epoch_day(0, 1, 1) <= day < epoch_day(10000, 1, 1));
    let (y, mo, d) = lemma_date_found(day, 0);
    if y > 9999 {
        lemma_years_ordered(10000, y);
        reveal_with_fuel(days_before_month, 2);
        assert(false);
    }
    let secs = rest / 1000;
    let m = Moment {
        year: y as i32,
        month: mo as u8,
        day: d as u8,
        hour: (secs / 3600) as u8,
        minute: (secs % 3600 / 60) as u8,
        second: (secs % 60) as u8,
        millis: (rest % 1000) as i32,
        weekday: weekday(day) as u8,
        tz: tz as i32,
    };
    m
}

// ── Digits ───────────────────────────────────────────────────────────────────

/// A number that fits has as many digits as it is padded to.
proof fn lemma_padded(n: nat, w: nat)
    requires
        1 <= w <= 4,
        n < vstd::arithmetic::power::pow(10, w),
    ensures
        zero_padded(n, w).len() == w,
        all_digits(zero_padded(n, w)),
        number_of(zero_padded(n, w)) == n,
{
    let d = nat_text(n);
    lemma_nat_text(n);
    lemma_nat_text_len(n, w);
    if d.len() < w {
        crate::stdlib::integer_laws::lemma_zeros((w - d.len()) as nat, d);
    }
}

proof fn lemma_tens()
    ensures
        vstd::arithmetic::power::pow(10, 2) == 100,
        vstd::arithmetic::power::pow(10, 3) == 1000,
        vstd::arithmetic::power::pow(10, 4) == 10000,
{
    reveal(vstd::arithmetic::power::pow);
    assert(vstd::arithmetic::power::pow(10, 0) == 1);
    assert(vstd::arithmetic::power::pow(10, 1) == 10);
    assert(vstd::arithmetic::power::pow(10, 2) == 100);
    assert(vstd::arithmetic::power::pow(10, 3) == 1000);
}

/// Digits are read as the number that they are.
proof fn lemma_read(d: Seq<char>, lo: int, hi: int)
    requires
        d.len() > 0,
        all_digits(d),
        lo <= 0,
        number_of(d) <= hi,
    ensures
        parse_spec(d, lo, hi) == Some(number_of(d) as int),
{
    assert(is_digit(d[0]));
}

/// A run of digits ends where they end.
proof fn lemma_run(s: Seq<char>, from: int, n: nat)
    requires
        0 <= from,
        from + n < s.len(),
        all_digits(s.subrange(from, from + n)),
        !is_digit(s[from + n]),
    ensures
        digit_run(s, from) == n,
    decreases n,
{
    if n > 0 {
        assert(is_digit(s.subrange(from, from + n)[0]));
        let a = s.subrange(from, from + n);
        let b = s.subrange(from + 1, from + 1 + (n - 1));
        assert forall|i: int| 0 <= i < b.len() implies is_digit(#[trigger] b[i]) by {
            assert(b[i] == a[i + 1]);
        }
        lemma_run(s, from + 1, (n - 1) as nat);
    }
}

// ── The text ─────────────────────────────────────────────────────────────────

/// What stands in an ISO 8601 text.
proof fn lemma_iso_base(t: Moment)
    requires
        0 <= t.year <= 9999,
        t.month <= 99,
        t.day <= 99,
        t.hour <= 99,
        t.minute <= 99,
        t.second <= 99,
        0 <= t.millis <= 999,
    ensures
        ({
            let s = iso_base(t);
            &&& s.len() == 23
            &&& ascii_only(s)
            &&& s[4] == '-' && s[10] == 'T' && s[19] == '.'
            &&& s.subrange(0, 4) == zero_padded(t.year as nat, 4)
            &&& s.subrange(5, 7) == zero_padded(t.month as nat, 2)
            &&& s.subrange(8, 10) == zero_padded(t.day as nat, 2)
            &&& s.subrange(11, 13) == zero_padded(t.hour as nat, 2)
            &&& s.subrange(14, 16) == zero_padded(t.minute as nat, 2)
            &&& s.subrange(17, 19) == zero_padded(t.second as nat, 2)
            &&& s.subrange(20, 23) == zero_padded(t.millis as nat, 3)
        }),
{
    reveal_strlit("-");
    reveal_strlit("T");
    reveal_strlit(":");
    reveal_strlit(".");
    lemma_tens();
    let y = zero_padded(t.year as nat, 4);
    let mo = zero_padded(t.month as nat, 2);
    let d = zero_padded(t.day as nat, 2);
    let h = zero_padded(t.hour as nat, 2);
    let mi = zero_padded(t.minute as nat, 2);
    let se = zero_padded(t.second as nat, 2);
    let ms = zero_padded(t.millis as nat, 3);
    lemma_padded(t.year as nat, 4);
    lemma_padded(t.month as nat, 2);
    lemma_padded(t.day as nat, 2);
    lemma_padded(t.hour as nat, 2);
    lemma_padded(t.minute as nat, 2);
    lemma_padded(t.second as nat, 2);
    lemma_padded(t.millis as nat, 3);
    let s = iso_base(t);
    assert(s == y + "-"@ + mo + "-"@ + d + "T"@ + h + ":"@ + mi + ":"@ + se + "."@ + ms);
    assert(s.subrange(0, 4) =~= y);
    assert(s.subrange(5, 7) =~= mo);
    assert(s.subrange(8, 10) =~= d);
    assert(s.subrange(11, 13) =~= h);
    assert(s.subrange(14, 16) =~= mi);
    assert(s.subrange(17, 19) =~= se);
    assert(s.subrange(20, 23) =~= ms);
    assert forall|i: int| 0 <= i < s.len() implies #[trigger] s[i] <= '\u{7f}' by {
        if i < 4 {
            assert(is_digit(y[i]));
        } else if 5 <= i < 7 {
            assert(is_digit(mo[i - 5]));
        } else if 8 <= i < 10 {
            assert(is_digit(d[i - 8]));
        } else if 11 <= i < 13 {
            assert(is_digit(h[i - 11]));
        } else if 14 <= i < 16 {
            assert(is_digit(mi[i - 14]));
        } else if 17 <= i < 19 {
            assert(is_digit(se[i - 17]));
        } else if 20 <= i < 23 {
            assert(is_digit(ms[i - 20]));
        }
    }
}

/// An offset of whole minutes is read as it was written.
proof fn lemma_offset(tz: int)
    requires
        tz != 0,
        -360_000 < tz < 360_000,
        tz % 60 == 0,
    ensures
        ({
            let z = offset_text(tz, ":"@, 2);
            &&& z.len() == 6
            &&& ascii_only(z)
            &&& !is_digit(z[0])
            &&& iso_zone(z) == Some(tz)
        }),
{
    reveal_strlit(":");
    reveal_strlit("Z");
    reveal_strlit("z");
    lemma_tens();
    let a = abs_of(tz);
    let hours = a / 3600;
    let minutes = a % 3600 / 60;
    lemma_padded(hours as nat, 2);
    lemma_padded(minutes as nat, 2);
    let h = zero_padded(hours as nat, 2);
    let m = zero_padded(minutes as nat, 2);
    let z = offset_text(tz, ":"@, 2);
    let sign = if tz >= 0 {
        '+'
    } else {
        '-'
    };
    assert(z == seq![sign] + h + ":"@ + m);
    assert(z.subrange(1, 3) =~= h);
    assert(z.subrange(4, 6) =~= m);
    assert(z[3] == ':');
    assert forall|i: int| 0 <= i < z.len() implies #[trigger] z[i] <= '\u{7f}' by {
        if 1 <= i < 3 {
            assert(is_digit(h[i - 1]));
        } else if 4 <= i < 6 {
            assert(is_digit(m[i - 4]));
        }
    }
    assert(find_char(z, ':', 1) is Some) by {
        reveal_with_fuel(find_char, 4);
    }
    lemma_read(h, i64::MIN as int, i64::MAX as int);
    lemma_read(m, i64::MIN as int, i64::MAX as int);
    assert(z != "Z"@ && z != "z"@);
    assert(hours * 3600 + minutes * 60 == a);
}

/// The date and the time of day of an ISO 8601 text are those of the moment.
proof fn lemma_civil_read(t: Moment, s: Seq<char>, z: Seq<char>)
    requires
        0 <= t.year <= 9999,
        t.month <= 99,
        t.day <= 99,
        t.hour <= 99,
        t.minute <= 99,
        t.second <= 99,
        0 <= t.millis <= 999,
        s == iso_base(t) + z,
        z.len() > 0,
        ascii_only(z),
        !is_digit(z[0]),
    ensures
        s.len() >= 20 && ascii_only(s) && s[4] == '-' && s[10] == 'T',
        civil_at(s) == Some(
            Civil {
                year: t.year,
                month: t.month as i64,
                day: t.day as i64,
                hour: t.hour as i64,
                minute: t.minute as i64,
                second: t.second as i64,
            },
        ),
        iso_fraction(s) == Some((t.millis as int, 23int)),
        s.skip(23) == z,
{
    let base = iso_base(t);
    lemma_iso_base(t);
    lemma_tens();
    assert(s.skip(23) =~= z);
    assert(s[23] == z[0]);
    assert(s.subrange(0, 4) =~= base.subrange(0, 4));
    assert(s.subrange(5, 7) =~= base.subrange(5, 7));
    assert(s.subrange(8, 10) =~= base.subrange(8, 10));
    assert(s.subrange(11, 13) =~= base.subrange(11, 13));
    assert(s.subrange(14, 16) =~= base.subrange(14, 16));
    assert(s.subrange(17, 19) =~= base.subrange(17, 19));
    assert(s.subrange(20, 23) =~= base.subrange(20, 23));
    assert forall|i: int| 0 <= i < s.len() implies #[trigger] s[i] <= '\u{7f}' by {
        if i < 23 {
            assert(s[i] == base[i]);
        } else {
            assert(s[i] == z[i - 23]);
        }
    }
    lemma_padded(t.year as nat, 4);
    lemma_padded(t.month as nat, 2);
    lemma_padded(t.day as nat, 2);
    lemma_padded(t.hour as nat, 2);
    lemma_padded(t.minute as nat, 2);
    lemma_padded(t.second as nat, 2);
    lemma_padded(t.millis as nat, 3);
    lemma_read(zero_padded(t.year as nat, 4), i32::MIN as int, i32::MAX as int);
    lemma_read(zero_padded(t.month as nat, 2), 0, u8::MAX as int);
    lemma_read(zero_padded(t.day as nat, 2), 0, u8::MAX as int);
    lemma_read(zero_padded(t.hour as nat, 2), 0, u8::MAX as int);
    lemma_read(zero_padded(t.minute as nat, 2), 0, u8::MAX as int);
    lemma_read(zero_padded(t.second as nat, 2), 0, u8::MAX as int);
    lemma_read(zero_padded(t.millis as nat, 3), i32::MIN as int, i32::MAX as int);
    lemma_run(s, 20, 3);
}

/// The milliseconds of a moment are counted up from its date and time of day.
pub proof fn lemma_civil_counted(t: Moment, local: int, tz: int)
    requires
        is_moment(t, local, tz),
        0 <= t.year <= 9999,
    ensures
        civil_ms(
            Civil {
                year: t.year,
                month: t.month as i64,
                day: t.day as i64,
                hour: t.hour as i64,
                minute: t.minute as i64,
                second: t.second as i64,
            },
            t.millis as int,
        ) == Some(local),
        -100_000_000_000_000 < local < 400_000_000_000_000,
{
    let (y, mo, d) = (t.year as int, t.month as int, t.day as int);
    assert((mo - 1) / 12 == 0 && (mo - 1) % 12 + 1 == mo);
    let day = epoch_day(y, mo, d);
    assert(epoch_day(y, mo, 1) + d - 1 == day);
    lemma_day_bounds(y, mo, d);
}

/// What the parts of a text are read as, it is read as.
proof fn lemma_zoned(s: Seq<char>, c: Civil, ms: int, tz: int, local: int)
    requires
        s.len() >= 20 && ascii_only(s) && s[4] == '-' && s[10] == 'T',
        civil_at(s) == Some(c),
        iso_fraction(s) == Some((ms, 23int)),
        iso_zone(s.skip(23)) == Some(tz),
        civil_ms(c, ms) == Some(local),
        in_i64(local - tz * 1000),
    ensures
        iso_millis(s) == Some(local - tz * 1000),
{
    assert(iso_with_zone(s) == Some(local - tz * 1000));
}

/// What an ISO 8601 text ends with.
spec fn zone_text(tz: int) -> Seq<char> {
    if tz == 0 {
        "Z"@
    } else {
        offset_text(tz, ":"@, 2)
    }
}

proof fn lemma_zone(tz: int)
    requires
        -360_000 < tz < 360_000,
        tz % 60 == 0,
    ensures
        zone_text(tz).len() > 0,
        ascii_only(zone_text(tz)),
        !is_digit(zone_text(tz)[0]),
        iso_zone(zone_text(tz)) == Some(tz),
{
    reveal_strlit("Z");
    if tz != 0 {
        lemma_offset(tz);
    }
}

/// A moment in ISO 8601 notation is read as that moment.
proof fn lemma_iso_read(t: Moment, s: Seq<char>, local: int, tz: int)
    requires
        is_moment(t, local, tz),
        0 <= t.year <= 9999,
        -360_000 < tz < 360_000,
        tz % 60 == 0,
        s == iso_base(t) + zone_text(tz),
    ensures
        iso_millis(s) == Some(local - tz * 1000),
{
    lemma_zone(tz);
    assert(t.day <= 31);
    lemma_civil_read(t, s, zone_text(tz));
    lemma_civil_counted(t, local, tz);
    let c = civil_at(s)->0;
    lemma_zoned(s, c, t.millis as int, tz, local);
}

proof fn lemma_day_bounds(y: int, m: int, d: int)
    requires
        0 <= y <= 9999,
        valid_date(y, m, d),
    ensures
        -1_000_000 <= epoch_day(y, m, d) <= 4_000_000,
{
    reveal(days_before_year);
    reveal_with_fuel(days_before_month, 14);
}

/// `$toMillis` undoes `$fromMillis` where no picture is given: from year 0 to
/// year 9999, seen at any offset of whole minutes below a hundred hours.
pub proof fn law_to_millis_undoes_from_millis(ms: int, zone: Val, tz: int, focus: Val, now: int)
    requires
        zone_arg(zone) == Ok::<int, Seq<char>>(tz),
        -360_000 < tz < 360_000,
        tz % 60 == 0,
        FIRST_MS <= ms + tz * 1000 < END_MS,
    ensures
        from_millis(seq![Val::Number(Number::of_int(ms)), Val::Undefined, zone], focus) == Ok::<Val, Seq<char>>(
            Val::String(iso_text(moment_of(ms, tz))),
        ),
        to_millis(seq![Val::String(iso_text(moment_of(ms, tz)))], now) == Ok::<Val, Seq<char>>(
            Val::Number(Number::of_int(ms)),
        ),
{
    let text = iso_text(moment_of(ms, tz));
    lemma_written(ms, zone, tz, focus);
    lemma_text_read(ms, tz);
    lemma_read_back(text, ms, now);
}

pub proof fn lemma_moment_seen(ms: int, tz: int) -> (t: Moment)
    requires
        i32::MIN < tz <= i32::MAX,
        FIRST_MS <= ms + tz * 1000 < END_MS,
    ensures
        t == moment_of(ms, tz),
        is_moment(t, ms + tz * 1000, tz),
        0 <= t.year <= 9999,
        t.tz == tz,
{
    let t = lemma_moment_found(ms + tz * 1000, tz);
    lemma_moment_unique(t, moment_of(ms, tz), ms + tz * 1000, tz);
    t
}

proof fn lemma_iso_ending(t: Moment)
    ensures
        iso_text(t) == iso_base(t) + zone_text(t.tz as int),
{
}

proof fn lemma_text_read(ms: int, tz: int)
    requires
        -360_000 < tz < 360_000,
        tz % 60 == 0,
        FIRST_MS <= ms + tz * 1000 < END_MS,
    ensures
        iso_millis(iso_text(moment_of(ms, tz))) == Some(ms),
{
    let t = lemma_moment_seen(ms, tz);
    let text = iso_text(t);
    lemma_iso_ending(t);
    lemma_iso_read(t, text, ms + tz * 1000, tz);
}

proof fn lemma_written(ms: int, zone: Val, tz: int, focus: Val)
    requires
        zone_arg(zone) == Ok::<int, Seq<char>>(tz),
        -400_000_000_000_000 < ms < 400_000_000_000_000,
    ensures
        from_millis(seq![Val::Number(Number::of_int(ms)), Val::Undefined, zone], focus) == Ok::<Val, Seq<char>>(
            Val::String(iso_text(moment_of(ms, tz))),
        ),
{
    law_whole_numbers_come_back(ms, i64::MIN as int, i64::MAX as int);
    let a = seq![Val::Number(Number::of_int(ms)), Val::Undefined, zone];
    assert(a[0] == Val::Number(Number::of_int(ms)));
    assert(arg(a, 2) == zone);
    assert(arg(a, 1) == Val::Undefined);
}

proof fn lemma_read_back(text: Seq<char>, ms: int, now: int)
    requires
        iso_millis(text) == Some(ms),
    ensures
        to_millis(seq![Val::String(text)], now) == Ok::<Val, Seq<char>>(Val::Number(Number::of_int(ms))),
{
    let b = seq![Val::String(text)];
    assert(arg(b, 0) == Val::String(text));
    assert(arg(b, 1) == Val::Undefined);
}

} // verus!
