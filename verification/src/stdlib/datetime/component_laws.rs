//! What the components of a picture say together is the time that they were
//! written for.
use vstd::arithmetic::power::pow;
use vstd::prelude::*;

use super::calendar::{
    days_before_month, epoch_day, is_iso_week, lemma_year_length, lemma_years_ordered, valid_date, week_thursday,
    weekday,
};
use super::format::{integer_mod, is_moment, iso_week_of, token_text, two_by_default, Moment};
use super::laws::{falls_on, law_every_day_has_one_date};
use super::parse::{full_hour, stored, Fields};
use super::tz::{abs_of, offset_text, two_digits, zero_padded, zone_at};
use crate::stdlib::integer_laws::lemma_zeros;
use crate::text::{
    all_digits, byte_len, digit_run, digit_value, find_char, is_digit, lemma_nat_text, lemma_nat_text_len, nat_text,
    number_of, occurs_at, space_run, space_tail, trimmed,
};

verus! {

// ── Numbers in components ────────────────────────────────────────────────────

/// Whether a text is a number in decimal digits.
pub open spec fn shows(s: Seq<char>, v: int) -> bool {
    s.len() > 0 && all_digits(s) && number_of(s) == v
}

/// Whether a result is a text that is a number in decimal digits.
pub open spec fn gives(r: Result<Seq<char>, Seq<char>>, v: int) -> bool {
    r matches Ok(s) && shows(s, v)
}

/// A component with a modifier.
pub open spec fn marker(c: char, modifier: Seq<char>) -> Seq<char> {
    seq![c] + modifier
}

pub proof fn lemma_marker(c: char, modifier: Seq<char>)
    ensures
        marker(c, modifier).len() > 0,
        marker(c, modifier)[0] == c,
        marker(c, modifier).skip(1) == modifier,
{
    assert(marker(c, modifier).skip(1) =~= modifier);
}

pub proof fn lemma_padded(n: nat, w: nat)
    ensures
        shows(zero_padded(n, w), n as int),
        zero_padded(n, w).len() >= w,
{
    let d = nat_text(n);
    lemma_nat_text(n);
    if d.len() < w {
        lemma_zeros((w - d.len()) as nat, d);
    }
}

/// Below a thousand no modifier sets groups apart.
proof fn lemma_small(v: int, modifier: Seq<char>)
    requires
        0 <= v < 1000,
    ensures
        shows(integer_mod(v, modifier), v),
{
    lemma_nat_text(v as nat);
    lemma_padded(v as nat, digit_run(trimmed(modifier), 0));
    reveal_with_fuel(nat_text, 4);
    assert(nat_text(v as nat).len() <= 3);
}

proof fn lemma_ends(s: Seq<char>, to: int)
    requires
        0 <= to <= s.len(),
    ensures
        0 <= space_tail(s, to) <= to,
    decreases to,
{
    if to > 0 {
        lemma_ends(s, to - 1);
    }
}

proof fn lemma_starts(s: Seq<char>, from: int)
    requires
        0 <= from,
    ensures
        from <= space_run(s, from),
    decreases s.len() - from,
{
    if from < s.len() {
        lemma_starts(s, from + 1);
    }
}

pub proof fn lemma_no_comma(s: Seq<char>, from: int)
    requires
        0 <= from,
        all_digits(s),
    ensures
        find_char(s, ',', from) is None,
    decreases s.len() - from,
{
    if from < s.len() {
        assert(is_digit(s[from]));
        lemma_no_comma(s, from + 1);
    }
}

/// A modifier of digits sets no groups apart.
proof fn lemma_plain(v: int, modifier: Seq<char>)
    requires
        0 <= v,
        all_digits(modifier),
    ensures
        shows(integer_mod(v, modifier), v),
{
    let m = trimmed(modifier);
    lemma_nat_text(v as nat);
    lemma_starts(modifier, 0);
    lemma_ends(modifier, modifier.len() as int);
    assert(all_digits(m)) by {
        let a = space_run(modifier, 0);
        assert forall|i: int| 0 <= i < m.len() implies is_digit(#[trigger] m[i]) by {
            assert(m[i] == modifier[a + i]);
        }
    }
    lemma_no_comma(m, 0);
    lemma_padded(v as nat, digit_run(m, 0));
}

// ── The clock ────────────────────────────────────────────────────────────────

/// Whether a text says that it is past noon.
pub open spec fn says_pm(p: Seq<char>) -> bool {
    p == "pm"@ || p == "PM"@
}

/// However they are presented, `h` is an hour between 1 and 12, and with what
/// `P` says it is the hour of the day.
pub proof fn law_twelve_hour_clock(t: Moment, local: int, tz: int, h: Seq<char>, p: Seq<char>)
    requires
        is_moment(t, local, tz),
    ensures
        ({
            let hour = local / 3_600_000 % 24;
            &&& token_text(marker('h', h), t) matches Ok(s)
            &&& s.len() > 0 && all_digits(s)
            &&& 1 <= number_of(s) <= 12
            &&& token_text(marker('P', p), t) matches Ok(half)
            &&& half == "am"@ || half == "pm"@ || half == "AM"@ || half == "PM"@
            &&& hour == number_of(s) % 12 + (if says_pm(half) {
                12int
            } else {
                0
            })
        }),
{
    lemma_marker('h', h);
    lemma_marker('P', p);
    lemma_small((t.hour + 11) % 12 + 1, h);
    lemma_halves();
    lemma_time(t, local, tz);
}

pub proof fn lemma_halves()
    ensures
        "am"@ != "pm"@,
        "am"@ != "PM"@,
        "AM"@ != "pm"@,
        "AM"@ != "PM"@,
{
    reveal_strlit("am");
    reveal_strlit("pm");
    reveal_strlit("AM");
    reveal_strlit("PM");
    assert("am"@[0] == 'a' && "AM"@[0] == 'A' && "pm"@[0] == 'p' && "PM"@[0] == 'P');
}

proof fn lemma_time(t: Moment, local: int, tz: int)
    requires
        is_moment(t, local, tz),
    ensures
        t.hour == local / 3_600_000 % 24,
        t.minute == local / 60_000 % 60,
        t.second == local / 1000 % 60,
        t.millis == local % 1000,
        epoch_day(t.year as int, t.month as int, t.day as int) == local / 86_400_000,
{
    let day = epoch_day(t.year as int, t.month as int, t.day as int);
    lemma_clock(day, t.hour as int, t.minute as int, t.second as int, t.millis as int, local);
}

proof fn lemma_clock(day: int, h: int, m: int, s: int, ms: int, local: int)
    requires
        0 <= h < 24,
        0 <= m < 60,
        0 <= s < 60,
        0 <= ms < 1000,
        local == (day * 86400 + h * 3600 + m * 60 + s) * 1000 + ms,
    ensures
        h == local / 3_600_000 % 24,
        m == local / 60_000 % 60,
        s == local / 1000 % 60,
        ms == local % 1000,
        day == local / 86_400_000,
{
    assert(local / 1000 == day * 86400 + h * 3600 + m * 60 + s);
    assert(local / 60_000 == day * 1440 + h * 60 + m);
    assert(local / 3_600_000 == day * 24 + h);
    assert(local / 86_400_000 == day);
}

/// An hour between 1 and 12 that was read, and whether it is past noon, give
/// back the hour of the day.
pub proof fn law_twelve_hour_clock_is_read(f: Fields, h: int, n: int, pm: bool, hour: int)
    requires
        1 <= h <= 12,
        hour == h % 12 + (if pm {
            12int
        } else {
            0
        }),
    ensures
        stored(f, 'h', h, n) matches Some(g) && full_hour(Fields { pm, ..g }) == hour,
        stored(f, 'H', hour, n) matches Some(g) && (!f.twelve ==> full_hour(Fields { pm, ..g }) == hour),
{
}

/// `H`, `m` and `s` are the hour of the day, the minute of the hour and the
/// second of the minute, however they are presented.
pub proof fn law_time_of_day(t: Moment, local: int, tz: int, modifier: Seq<char>)
    requires
        is_moment(t, local, tz),
    ensures
        gives(token_text(marker('H', modifier), t), local / 3_600_000 % 24),
        gives(token_text(marker('m', modifier), t), local / 60_000 % 60),
        gives(token_text(marker('s', modifier), t), local / 1000 % 60),
{
    lemma_marker('H', modifier);
    lemma_marker('m', modifier);
    lemma_marker('s', modifier);
    lemma_time(t, local, tz);
    lemma_small(t.hour as int, modifier);
    lemma_small(t.minute as int, two_by_default(modifier));
    lemma_small(t.second as int, two_by_default(modifier));
}

/// `Y`, `M` and `D` with modifiers of digits are the date of the day, from year
/// 0 on.
pub proof fn law_date(t: Moment, local: int, tz: int, y: Seq<char>, m: Seq<char>, d: Seq<char>)
    requires
        is_moment(t, local, tz),
        t.year >= 0,
        all_digits(y),
        all_digits(m),
        all_digits(d),
    ensures
        token_text(marker('Y', y), t) matches Ok(a) && token_text(marker('M', m), t) matches Ok(b) && token_text(
            marker('D', d),
            t,
        ) matches Ok(c) && {
            &&& a.len() > 0 && all_digits(a)
            &&& b.len() > 0 && all_digits(b)
            &&& c.len() > 0 && all_digits(c)
            &&& falls_on(number_of(a) as int, number_of(b) as int, number_of(c) as int, local / 86_400_000)
        },
{
    lemma_marker('Y', y);
    lemma_marker('M', m);
    lemma_marker('D', d);
    lemma_time(t, local, tz);
    lemma_plain(t.year as int, y);
    lemma_plain(t.month as int, m);
    lemma_plain(t.day as int, d);
    lemma_no_comma(y, 0);
    lemma_no_comma(m, 0);
    lemma_no_comma(d, 0);
    lemma_digits_name_nothing(y);
    lemma_digits_name_nothing(m);
    lemma_digits_name_nothing(d);
}

/// A modifier of digits is none of those that are letters.
pub proof fn lemma_digits_name_nothing(m: Seq<char>)
    requires
        all_digits(m),
    ensures
        m != "I"@ && m != "i"@ && m != "w"@ && m != "W"@ && m != "a"@ && m != "A"@ && m != "N"@ && m != "wo"@ && m
            != "Wo"@ && m != "n"@,
        !occurs_at(m, "Nn"@, 0),
        m.len() > 0 ==> m.last() != 'o',
{
    reveal_strlit("I");
    reveal_strlit("i");
    reveal_strlit("w");
    reveal_strlit("W");
    reveal_strlit("a");
    reveal_strlit("A");
    reveal_strlit("N");
    reveal_strlit("n");
    reveal_strlit("wo");
    reveal_strlit("Wo");
    reveal_strlit("Nn");
    if m.len() > 0 {
        assert(is_digit(m[0]));
        assert(is_digit(m.last()));
    }
    if occurs_at(m, "Nn"@, 0) {
        assert(m[0] == "Nn"@[0]);
    }
}

/// `F` with a number is the day of the week from Monday on, the epoch having been
/// a Thursday, and `d` the day of the year.
pub proof fn law_day_of_week_and_year(t: Moment, local: int, tz: int, modifier: Seq<char>)
    requires
        is_moment(t, local, tz),
        modifier.len() > 0,
        all_digits(modifier),
    ensures
        gives(token_text(marker('F', modifier), t), (local / 86_400_000 + 3) % 7 + 1),
        gives(
            token_text(marker('d', modifier), t),
            local / 86_400_000 - epoch_day(t.year as int, 1, 1) + 1,
        ),
{
    lemma_marker('F', modifier);
    lemma_marker('d', modifier);
    lemma_time(t, local, tz);
    lemma_digits_name_nothing(modifier);
    reveal_strlit("");
    let doy = days_before_month(t.year as int, t.month as int) + t.day;
    lemma_small((t.weekday + 6) % 7 + 1, modifier);
    assert(0 < doy < 1000) by {
        reveal_with_fuel(days_before_month, 13);
    }
    lemma_small(doy, modifier);
    assert(days_before_month(t.year as int, 1) == 0);
}

/// The days of the week, from that of the epoch on.
pub open spec fn days_from_the_epoch() -> Seq<Seq<char>> {
    seq!["Thursday"@, "Friday"@, "Saturday"@, "Sunday"@, "Monday"@, "Tuesday"@, "Wednesday"@]
}

pub open spec fn months_of_the_year() -> Seq<Seq<char>> {
    seq![
        "January"@,
        "February"@,
        "March"@,
        "April"@,
        "May"@,
        "June"@,
        "July"@,
        "August"@,
        "September"@,
        "October"@,
        "November"@,
        "December"@,
    ]
}

/// `F` by name goes through the days of the week in their order, and `M` by name
/// is the month that the day is in.
pub proof fn law_names(t: Moment, local: int, tz: int, y: int, m: int, d: int)
    requires
        is_moment(t, local, tz),
        falls_on(y, m, d, local / 86_400_000),
    ensures
        token_text(marker('F', "Nn"@), t) == Ok::<Seq<char>, Seq<char>>(
            days_from_the_epoch()[local / 86_400_000 % 7],
        ),
        token_text(marker('M', "Nn"@), t) == Ok::<Seq<char>, Seq<char>>(months_of_the_year()[m - 1]),
{
    lemma_marker('F', "Nn"@);
    lemma_marker('M', "Nn"@);
    lemma_time(t, local, tz);
    law_every_day_has_one_date(local / 86_400_000);
    assert(falls_on(t.year as int, t.month as int, t.day as int, local / 86_400_000));
    assert(t.month == m);
    reveal_strlit("Nn");
    reveal_strlit("");
    reveal_strlit("n");
    assert("Nn"@.subrange(0, 2) =~= "Nn"@);
    assert(occurs_at("Nn"@, "Nn"@, 0));
    let day = local / 86_400_000;
    assert(t.weekday == (day + 4) % 7);
    assert(t.weekday == (day % 7 + 4) % 7);
}

// ── Weeks ────────────────────────────────────────────────────────────────────

/// `X` and `W` are the year that the Thursday of the week is in, and how many
/// Thursdays of that year there have been.
pub proof fn law_iso_week(t: Moment, local: int, tz: int, modifier: Seq<char>)
    requires
        is_moment(t, local, tz),
        t.year >= 1,
        all_digits(modifier),
    ensures
        token_text(marker('X', modifier), t) matches Ok(y) && token_text(marker('W', modifier), t) matches Ok(n) && {
            &&& y.len() > 0 && all_digits(y)
            &&& n.len() > 0 && all_digits(n)
            &&& is_iso_week(local / 86_400_000, number_of(y) as int, number_of(n) as int)
        },
{
    lemma_marker('X', modifier);
    lemma_marker('W', modifier);
    lemma_time(t, local, tz);
    let day = local / 86_400_000;
    let th = week_thursday(day);
    law_every_day_has_one_date(th);
    let (y, m, d) = choose|y: int, m: int, d: int| #[trigger] falls_on(y, m, d, th);
    lemma_within_year(y, m, d);
    lemma_within_year(t.year as int, t.month as int, t.day as int);
    let n = (th - epoch_day(y, 1, 1)) / 7 + 1;
    let p = (y, n);
    assert(is_iso_week(day, p.0, p.1));
    let (a, b) = iso_week_of(day);
    assert(is_iso_week(day, a, b));
    if a < 0 {
        lemma_years_ordered(a + 1, t.year - 1);
        lemma_within_year(t.year - 1, 1, 1);
        lemma_within_year(a, 1, 1);
        assert(false);
    }
    lemma_within_year(a, 1, 1);
    assert(0 < b < 1000);
    lemma_plain(a, modifier);
    lemma_small(b, modifier);
    lemma_no_comma(modifier, 0);
}

proof fn lemma_within_year(y: int, m: int, d: int)
    requires
        valid_date(y, m, d),
    ensures
        epoch_day(y, 1, 1) <= epoch_day(y, m, d) < epoch_day(y + 1, 1, 1),
        epoch_day(y, 1, 1) + 365 <= epoch_day(y + 1, 1, 1) <= epoch_day(y, 1, 1) + 366,
{
    lemma_year_length(y);
    reveal_with_fuel(days_before_month, 13);
    assert(days_before_month(y + 1, 1) == 0);
}

// ── Fractions of a second ────────────────────────────────────────────────────

/// The first of some digits are the number without the last ones.
pub proof fn lemma_first_digits(d: Seq<char>, w: int)
    requires
        0 <= w <= d.len(),
        all_digits(d),
    ensures
        ({
            let n = number_of(d.take(w));
            let p = pow(10, (d.len() - w) as nat);
            n * p <= number_of(d) < (n + 1) * p
        }),
    decreases d.len() - w,
{
    reveal(pow);
    if w == d.len() {
        assert(d.take(w) =~= d);
        let n = number_of(d) as int;
        let p = pow(10, 0);
        assert(n * p <= n < (n + 1) * p) by (nonlinear_arith)
            requires
                p == 1,
        ;
    } else {
        let n = number_of(d.take(w)) as int;
        let more = number_of(d.take(w + 1)) as int;
        let p = pow(10, (d.len() - w - 1) as nat);
        lemma_first_digits(d, w + 1);
        assert(d.take(w + 1).drop_last() =~= d.take(w));
        assert(d.take(w + 1).last() == d[w]);
        assert(is_digit(d[w]));
        assert(more == 10 * n + digit_value(d[w]));
        assert(pow(10, (d.len() - w) as nat) == 10 * p);
        assert(p >= 1) by {
            vstd::arithmetic::power::lemma_pow_positive(10, (d.len() - w - 1) as nat);
        }
        let all = number_of(d) as int;
        assert(n * (10 * p) <= all < (n + 1) * (10 * p)) by (nonlinear_arith)
            requires
                more * p <= all < (more + 1) * p,
                10 * n <= more <= 10 * n + 9,
                p >= 1,
        ;
    }
}

/// `f` shows as many digits of the fraction of the second as its modifier has
/// digits, up to nine; of its own, the milliseconds.
pub proof fn law_fraction(t: Moment, local: int, tz: int, modifier: Seq<char>)
    requires
        is_moment(t, local, tz),
        all_digits(modifier),
        modifier.len() <= 9,
    ensures
        token_text(marker('f', modifier), t) matches Ok(s) && {
            let w = if modifier.len() == 0 {
                3
            } else {
                modifier.len()
            };
            let p = pow(10, (9 - w) as nat);
            &&& s.len() == w
            &&& all_digits(s)
            &&& number_of(s) * p <= local % 1000 * 1_000_000 < (number_of(s) + 1) * p
        },
{
    lemma_marker('f', modifier);
    lemma_time(t, local, tz);
    lemma_bytes(modifier);
    let w = if modifier.len() == 0 {
        3
    } else {
        modifier.len()
    };
    let n = (t.millis * 1_000_000) as nat;
    let full = zero_padded(n, 9);
    lemma_padded(n, 9);
    assert(pow(10, 9) == 1_000_000_000) by {
        reveal(pow);
        reveal_with_fuel(pow, 10);
    }
    lemma_nat_text_len(n, 9);
    assert(full.len() == 9);
    lemma_first_digits(full, w as int);
    let s = full.take(w as int);
    assert forall|i: int| 0 <= i < s.len() implies is_digit(#[trigger] s[i]) by {
        assert(s[i] == full[i]);
    }
}

proof fn lemma_bytes(s: Seq<char>)
    requires
        all_digits(s),
    ensures
        byte_len(s) == s.len(),
    decreases s.len(),
{
    if s.len() > 0 {
        assert(is_digit(s.last()));
        assert forall|i: int| 0 <= i < s.drop_last().len() implies is_digit(#[trigger] s.drop_last()[i]) by {
            assert(s.drop_last()[i] == s[i]);
        }
        lemma_bytes(s.drop_last());
    }
}

// ── Offsets ──────────────────────────────────────────────────────────────────

proof fn lemma_offset_read(tz: int, colon: Seq<char>)
    requires
        -360_000 < tz < 360_000,
        tz % 60 == 0,
        colon == seq![':'] || colon == Seq::<char>::empty(),
    ensures
        zone_at(offset_text(tz, colon, 2)) == (tz, offset_text(tz, colon, 2).len() as int),
{
    let a = abs_of(tz);
    let hours = a / 3600;
    let minutes = a % 3600 / 60;
    assert(hours * 3600 + minutes * 60 == a);
    let h = zero_padded(hours as nat, 2);
    let m = zero_padded(minutes as nat, 2);
    lemma_padded(hours as nat, 2);
    lemma_padded(minutes as nat, 2);
    assert(pow(10, 2) == 100) by {
        reveal(pow);
        reveal_with_fuel(pow, 3);
    }
    lemma_nat_text_len(hours as nat, 2);
    lemma_nat_text_len(minutes as nat, 2);
    let s = offset_text(tz, colon, 2);
    let c: int = 3 + colon.len() as int;
    assert(s[0] == '+' || s[0] == '-');
    assert(is_digit(h[0]) && is_digit(h[1]) && is_digit(m[0]) && is_digit(m[1]));
    assert(s[1] == h[0] && s[2] == h[1]);
    assert(s[c] == m[0] && s[c + 1] == m[1]);
    assert(s.subrange(1, 3) =~= h);
    assert(s.subrange(c, c + 2) =~= m);
    reveal_strlit("GMT");
    assert(!occurs_at(s, "GMT"@, 0)) by {
        if occurs_at(s, "GMT"@, 0) {
            assert(s.subrange(0, 3)[0] == s[0]);
        }
    }
    assert(two_digits(s, 1) == 3);
    assert(two_digits(s, c) == c + 2);
}

/// What `Z` and `z` write of an offset of whole minutes below a hundred hours is
/// read as that offset, with or without a colon between hours and minutes.
pub proof fn law_offset(t: Moment, local: int, tz: int, c: char, modifier: Seq<char>)
    requires
        is_moment(t, local, tz),
        -360_000 < tz < 360_000,
        tz % 60 == 0,
        c == 'Z' || c == 'z',
        modifier == Seq::<char>::empty() || modifier == seq!['0', '1', ':', '0', '1'] || modifier == seq![
            '0',
            '1',
            '0',
            '1',
        ],
    ensures
        token_text(marker(c, modifier), t) matches Ok(s) && zone_at(s) == (tz, s.len() as int),
{
    lemma_marker(c, modifier);
    reveal_strlit("010101");
    reveal_strlit("01:01:01");
    reveal_strlit("0101");
    reveal_strlit("0");
    reveal_strlit(":");
    reveal_strlit("");
    reveal_strlit("GMT");
    assert("0101"@ =~= seq!['0', '1', '0', '1']);
    assert(":"@ =~= seq![':']);
    assert(""@ =~= Seq::<char>::empty());
    let colon = if modifier == "0101"@ {
        Seq::<char>::empty()
    } else {
        seq![':']
    };
    assert(modifier != "0"@ && modifier != "010101"@ && modifier != "01:01:01"@) by {
        assert("0"@.len() == 1 && "010101"@.len() == 6 && "01:01:01"@.len() == 8);
    }
    let s = offset_text(tz, colon, 2);
    lemma_offset_read(tz, colon);
    if c == 'Z' {
        assert(""@ + s =~= s);
    } else {
        let g = "GMT"@ + s;
        assert(g.subrange(0, 3) =~= "GMT"@);
        assert(g.skip(3) =~= s);
        assert(zone_at(g) == (tz, 3 + s.len() as int));
    }
}

} // verus!
