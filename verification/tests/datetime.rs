//! Dates and times.
use jsntrs::number::Number;
use jsntrs::stdlib::datetime::calendar::{day_of_week, iso_week, iso_week_thursday, secs_to_ymd_hms, week_of_month};
use jsntrs::stdlib::datetime::format::format_default_iso;
use jsntrs::stdlib::datetime::parse::parse_word_number;
use jsntrs::stdlib::datetime::{fn_from_millis, fn_now, fn_to_millis};
use jsntrs::stdlib::number_words::{int_to_words, to_roman};
use jsntrs::value::Value;

fn number(x: f64) -> Value {
    Value::Number(Number { bits: x.to_bits() })
}

fn float(n: Number) -> f64 {
    f64::from_bits(n.bits)
}

#[test]
fn parse_word_number_returns_char_count() {
    let runes: Vec<char> = "twenty-first century".chars().collect();
    assert_eq!(parse_word_number(&runes), (21, 12));
    let runes: Vec<char> = "TWELVE more".chars().collect();
    assert_eq!(parse_word_number(&runes), (12, 6));
    let runes: Vec<char> = "no number".chars().collect();
    assert_eq!(parse_word_number(&runes), (-1, -1));
}

fn millis_val(ms: i64) -> Value {
    number(ms as f64)
}
fn str_val(s: &str) -> Value {
    Value::String(s.into())
}

fn from_millis_1arg(ms: i64) -> String {
    match fn_from_millis(&[millis_val(ms)], &Value::Undefined) {
        Ok(Value::String(s)) => s.to_string(),
        other => panic!("expected string, got {:?}", other),
    }
}

fn from_millis_picture(ms: i64, picture: &str) -> String {
    match fn_from_millis(&[millis_val(ms), str_val(picture)], &Value::Undefined) {
        Ok(Value::String(s)) => s.to_string(),
        other => panic!("expected string, got {:?}", other),
    }
}

fn from_millis_picture_tz(ms: i64, picture: &str, tz: &str) -> String {
    match fn_from_millis(
        &[millis_val(ms), str_val(picture), str_val(tz)],
        &Value::Undefined,
    ) {
        Ok(Value::String(s)) => s.to_string(),
        other => panic!("expected string, got {:?}", other),
    }
}

fn to_millis_1arg(s: &str) -> i64 {
    match fn_to_millis(&[str_val(s)], &Value::Undefined) {
        Ok(Value::Number(n)) => float(n) as i64,
        other => panic!("expected number, got {:?}", other),
    }
}

fn to_millis_picture(s: &str, picture: &str) -> Option<i64> {
    match fn_to_millis(&[str_val(s), str_val(picture)], &Value::Undefined) {
        Ok(Value::Number(n)) => Some(float(n) as i64),
        Ok(Value::Undefined) => None,
        other => panic!("expected number or undefined, got {:?}", other),
    }
}

#[test]
fn test_from_millis_epoch_plus_1() {
    assert_eq!(from_millis_1arg(1), "1970-01-01T00:00:00.001Z");
}

#[test]
fn non_ascii_input_errors_instead_of_panicking() {
    let r = fn_to_millis(&[str_val("2018-\u{20AC}xxT00:00:00Z")], &Value::Undefined);
    assert_eq!(r.expect_err("should not parse").code, "D3110");

    let r = fn_from_millis(
        &[millis_val(0), str_val("[Y]"), str_val("+a\u{20AC}")],
        &Value::Undefined,
    );
    assert!(r.is_err(), "expected bad-timezone error, got {r:?}");

    for s in ["2018-01-\u{20AC}\u{20AC}", "2018-\u{20AC}xxT00:00:00"] {
        let r = fn_to_millis(&[str_val(s)], &Value::Undefined);
        assert!(r.is_err(), "expected D3110 for {s:?}, got {r:?}");
    }
}

#[test]
fn test_from_millis_known_timestamp() {
    assert_eq!(from_millis_1arg(1509380732935), "2017-10-30T16:25:32.935Z");
}

#[test]
fn overflowing_datetime_inputs_do_not_panic() {
    assert_eq!(to_millis_picture("999999999", "[Y]"), None);
    assert_eq!(to_millis_picture("aaaaaaaaaaaaaa", "[Ya]"), None);
    assert_eq!(to_millis_picture("99999999999", "[Y]"), None);
    let base = to_millis_picture("0", "[H]").expect("today midnight parses");
    let rolled = to_millis_picture("250 pm", "[h] [P]").expect("hour 262 parses");
    assert_eq!(rolled - base, 262 * 3_600_000);
    for args in [
        vec![number(1e300)],
        vec![number(1e300), str_val("[Y]"), str_val("+0100")],
        vec![number(-1e300)],
    ] {
        let r = fn_from_millis(&args, &Value::Undefined);
        assert!(
            matches!(r, Ok(Value::String(_))),
            "expected a string for {args:?}, got {r:?}"
        );
    }
}

#[test]
fn test_from_millis_undefined_input() {
    let result = fn_from_millis(&[Value::Undefined], &Value::Undefined);
    assert!(matches!(result, Ok(Value::Undefined)));
}

#[test]
fn test_from_millis_picture_year() {
    assert_eq!(
        from_millis_picture(1521801216617, "Year: [Y0001]"),
        "Year: 2018"
    );
}

#[test]
fn test_from_millis_picture_date() {
    assert_eq!(
        from_millis_picture(1521801216617, "[Y0001]-[M01]-[D01]"),
        "2018-03-23"
    );
}

#[test]
fn test_from_millis_picture_datetime_us() {
    assert_eq!(
        from_millis_picture(1521801216617, "[M01]/[D01]/[Y0001] at [H01]:[m01]:[s01]"),
        "03/23/2018 at 10:33:36"
    );
}

#[test]
fn test_from_millis_picture_iso_with_frac_and_tz() {
    assert_eq!(
        from_millis_picture(
            1521801216617,
            "[Y]-[M01]-[D01]T[H01]:[m]:[s].[f001][Z01:01t]"
        ),
        "2018-03-23T10:33:36.617Z"
    );
}

#[test]
fn test_from_millis_picture_tz_bst() {
    assert_eq!(
        from_millis_picture_tz(
            1521801216617,
            "[Y]-[M01]-[D01]T[H01]:[m]:[s].[f001][Z0101t]",
            "+0100"
        ),
        "2018-03-23T11:33:36.617+0100"
    );
}

#[test]
fn test_from_millis_picture_tz_minus5() {
    assert_eq!(
        from_millis_picture_tz(1531310400000, "[Y]-[M01]-[D01]T[H01]:[m]:[s][Z]", "-0500"),
        "2018-07-11T07:00:00-05:00"
    );
}

#[test]
fn test_from_millis_picture_tz_z_modifier() {
    assert_eq!(
        from_millis_picture(1531310400000, "[Y]-[M01]-[D01]T[H01]:[m]:[s][Z01:01t]"),
        "2018-07-11T12:00:00Z"
    );
}

#[test]
fn test_from_millis_picture_roman_year() {
    assert_eq!(
        from_millis_picture(1521801216617, "[D1] [M01] [YI]"),
        "23 03 MMXVIII"
    );
}

#[test]
fn test_from_millis_picture_ordinal() {
    assert_eq!(
        from_millis_picture(1521801216617, "[D1o] [M01] [Y]"),
        "23rd 03 2018"
    );
}

#[test]
fn test_from_millis_picture_year_words() {
    assert_eq!(
        from_millis_picture(1521801216617, "[Yw]"),
        "two thousand and eighteen"
    );
}

#[test]
fn test_from_millis_picture_month_name() {
    assert_eq!(
        from_millis_picture(1521801216617, "[D1o] [MNn] [Y]"),
        "23rd March 2018"
    );
}

#[test]
fn test_from_millis_picture_weekday_name() {
    assert_eq!(
        from_millis_picture(1521801216617, "[FNn], [D1o] [MNn] [Y]"),
        "Friday, 23rd March 2018"
    );
}

#[test]
fn test_from_millis_picture_default_modifiers() {
    assert_eq!(
        from_millis_picture(1521801216617, "[F], [D]/[M]/[Y] [h]:[m]:[s] [P]"),
        "friday, 23/3/2018 10:33:36 am"
    );
}

#[test]
fn test_from_millis_picture_ampm_uppercase() {
    assert_eq!(
        from_millis_picture(1521801216617, "[F], [D]/[M]/[Y] [h]:[m]:[s] [PN]"),
        "friday, 23/3/2018 10:33:36 AM"
    );
}

#[test]
fn test_from_millis_picture_day_of_year() {
    assert_eq!(
        from_millis_picture(1514808000000, "[dwo] day of the year"),
        "first day of the year"
    );
}

#[test]
fn test_from_millis_picture_week_of_year() {
    assert_eq!(from_millis_picture(1514808000000, "Week: [W]"), "Week: 1");
}

#[test]
fn test_from_millis_picture_week_of_month() {
    assert_eq!(
        from_millis_picture(1359460800000, "Week: [w] of [xNn]"),
        "Week: 5 of January"
    );
}

#[test]
fn test_from_millis_error_unclosed_bracket() {
    let result = fn_from_millis(
        &[millis_val(1419940800000), str_val("[YN]-[M")],
        &Value::Undefined,
    );
    assert!(
        matches!(result, Err(ref e) if e.code == "D3135"),
        "got {:?}",
        result
    );
}

#[test]
fn test_from_millis_error_named_year() {
    let result = fn_from_millis(
        &[millis_val(1419940800000), str_val("[YN]-[M]-[D]")],
        &Value::Undefined,
    );
    assert!(
        matches!(result, Err(ref e) if e.code == "D3133"),
        "got {:?}",
        result
    );
}

#[test]
fn test_from_millis_picture_tz_6digit_error() {
    let result = fn_from_millis(
        &[
            millis_val(1230757500000),
            str_val("[Y]-[M01]-[D01]T[H01]:[m]:[s].[f001][Z010101t]"),
            str_val("+0530"),
        ],
        &Value::Undefined,
    );
    assert!(
        matches!(result, Err(ref e) if e.code == "D3134"),
        "got {:?}",
        result
    );
}

#[test]
fn now_honours_the_timezone_without_a_picture() {
    let with_tz = match fn_now(&[Value::Undefined, str_val("+0530")], &Value::Undefined) {
        Ok(Value::String(s)) => s.to_string(),
        other => panic!("expected string, got {other:?}"),
    };
    assert!(
        with_tz.ends_with("+05:30"),
        "expected a +05:30 offset, got {with_tz}"
    );
    let with_picture = match fn_now(&[str_val("[Z]"), str_val("-0500")], &Value::Undefined) {
        Ok(Value::String(s)) => s.to_string(),
        other => panic!("expected string, got {other:?}"),
    };
    assert_eq!(with_picture, "-05:00");
    let plain = match fn_now(&[], &Value::Undefined) {
        Ok(Value::String(s)) => s.to_string(),
        other => panic!("expected string, got {other:?}"),
    };
    assert!(plain.ends_with('Z'), "expected UTC, got {plain}");
}

#[test]
fn unknown_format_component_is_d3132() {
    for picture in ["[q]", "[q1]", "[qN]", "[G1]", "[]", "[ ]", "[Y]-[M01] [k]"] {
        let result = fn_from_millis(&[millis_val(0), str_val(picture)], &Value::Undefined);
        assert!(
            matches!(result, Err(ref e) if e.code == "D3132"),
            "picture {picture:?}: got {result:?}"
        );
    }
    assert_eq!(from_millis_picture(0, "[E]/[C]"), "ISO/ISO");
}

#[test]
fn unknown_timezone_name_is_d3137() {
    for tz in ["America/New_York", "bogus", "+05:3", ""] {
        let result = fn_from_millis(
            &[millis_val(0), str_val("[Y]"), str_val(tz)],
            &Value::Undefined,
        );
        assert!(
            matches!(result, Err(ref e) if e.code == "D3137"),
            "timezone {tz:?}: got {result:?}"
        );
    }
    for tz in ["UTC", "utc", "GMT", "Z"] {
        assert_eq!(from_millis_picture_tz(0, "[H01]", tz), "00");
    }
}

#[test]
fn test_to_millis_iso8601() {
    assert_eq!(to_millis_1arg("1970-01-01T00:00:00.001Z"), 1);
}

#[test]
fn test_to_millis_known_timestamp() {
    assert_eq!(to_millis_1arg("2017-10-30T16:25:32.935Z"), 1509380732935);
}

#[test]
fn test_to_millis_undefined_input() {
    let result = fn_to_millis(&[Value::Undefined], &Value::Undefined);
    assert!(matches!(result, Ok(Value::Undefined)));
}

#[test]
fn test_to_millis_picture_year() {
    assert_eq!(to_millis_picture("2018", "[Y1]"), Some(1514764800000));
}

#[test]
fn test_to_millis_picture_ymd() {
    assert_eq!(
        to_millis_picture("2018-03-27", "[Y1]-[M01]-[D01]"),
        Some(1522108800000)
    );
}

#[test]
fn test_to_millis_picture_iso_format() {
    assert_eq!(
        to_millis_picture(
            "2018-03-27T14:03:00.123Z",
            "[Y0001]-[M01]-[D01]T[H01]:[m01]:[s01].[f001]Z"
        ),
        Some(1522159380123)
    );
}

#[test]
fn test_to_millis_picture_ordinal() {
    assert_eq!(
        to_millis_picture("27th 3 1976", "[D1o] [M#1] [Y0001]"),
        Some(196732800000)
    );
}

#[test]
fn test_to_millis_picture_roman_year() {
    assert_eq!(to_millis_picture("MCMLXXXIV", "[YI]"), Some(441763200000));
}

#[test]
fn test_to_millis_picture_month_name() {
    assert_eq!(
        to_millis_picture("27th April 2008", "[D1o] [MNn] [Y0001]"),
        Some(1209254400000)
    );
}

#[test]
fn test_to_millis_picture_words() {
    assert_eq!(
        to_millis_picture("one thousand, nine hundred and eighty-four", "[Yw]"),
        Some(441763200000)
    );
}

#[test]
fn test_to_millis_picture_12h_am() {
    assert_eq!(
        to_millis_picture("4/4/2018 12:06 am", "[D1]/[M1]/[Y0001] [h]:[m] [P]"),
        Some(1522800360000)
    );
}

#[test]
fn test_to_millis_picture_day_of_year() {
    assert_eq!(
        to_millis_picture("2018-094", "[Y0001]-[d001]"),
        Some(1522800000000)
    );
}

#[test]
fn test_to_millis_picture_timezone() {
    let result = to_millis_picture(
        "2020-09-09 08:00:00 +02:00",
        "[Y0001]-[M01]-[D01] [H01]:[m01]:[s01] [Z]",
    );
    let ts = fn_from_millis(&[number(result.unwrap() as f64)], &Value::Undefined);
    assert!(
        matches!(ts, Ok(Value::String(ref s)) if s.starts_with("2020-09-09T06:00:00")),
        "got {:?}",
        ts
    );
}

#[test]
fn test_to_millis_picture_error_unknown_component() {
    let result = fn_to_millis(
        &[str_val("2018-05-22"), str_val("[Y]-[M]-[q]")],
        &Value::Undefined,
    );
    assert!(
        matches!(result, Err(ref e) if e.code == "D3132"),
        "got {:?}",
        result
    );
}

#[test]
fn test_to_millis_picture_error_named_year() {
    let result = fn_to_millis(
        &[str_val("2018-05-22"), str_val("[YN]-[M]-[D]")],
        &Value::Undefined,
    );
    assert!(
        matches!(result, Err(ref e) if e.code == "D3133"),
        "got {:?}",
        result
    );
}

#[test]
fn test_to_millis_picture_error_no_month() {
    let result = fn_to_millis(&[str_val("2018-22"), str_val("[Y]-[D]")], &Value::Undefined);
    assert!(
        matches!(result, Err(ref e) if e.code == "D3136"),
        "got {:?}",
        result
    );
}

#[test]
fn test_to_millis_picture_no_match() {
    let result = to_millis_picture("irrelevant string", "[Y]-[M]-[D]");
    assert_eq!(result, None);
}

#[test]
fn test_secs_to_ymd_hms_epoch() {
    assert_eq!(secs_to_ymd_hms(0), (1970, 1, 1, 0, 0, 0));
}

#[test]
fn test_secs_to_ymd_hms_known() {
    assert_eq!(secs_to_ymd_hms(1521801216), (2018, 3, 23, 10, 33, 36));
}

#[test]
fn test_secs_to_ymd_hms_negative() {
    assert_eq!(secs_to_ymd_hms(-1), (1969, 12, 31, 23, 59, 59));
}

#[test]
fn test_day_of_week_friday() {
    assert_eq!(day_of_week(2018, 3, 23), 5);
}

#[test]
fn test_iso_week_known() {
    assert_eq!(iso_week(2018, 1, 1), (2018, 1));
    assert_eq!(iso_week(2018, 12, 31), (2019, 1));
}

#[test]
fn test_iso_week_all_edge_cases() {
    assert_eq!(iso_week(2005, 1, 1), (2004, 53));
    assert_eq!(iso_week(2005, 1, 2), (2004, 53));
    assert_eq!(iso_week(2005, 12, 31), (2005, 52));
    assert_eq!(iso_week(2006, 1, 1), (2005, 52));
    assert_eq!(iso_week(2006, 1, 2), (2006, 1));
    assert_eq!(iso_week(2006, 12, 31), (2006, 52));
    assert_eq!(iso_week(2007, 1, 1), (2007, 1));
    assert_eq!(iso_week(2007, 12, 30), (2007, 52));
    assert_eq!(iso_week(2007, 12, 31), (2008, 1));
    assert_eq!(iso_week(2008, 1, 1), (2008, 1));
    assert_eq!(iso_week(2008, 12, 28), (2008, 52));
    assert_eq!(iso_week(2008, 12, 29), (2009, 1));
    assert_eq!(iso_week(2008, 12, 30), (2009, 1));
    assert_eq!(iso_week(2008, 12, 31), (2009, 1));
    assert_eq!(iso_week(2009, 1, 1), (2009, 1));
    assert_eq!(iso_week(2009, 12, 31), (2009, 53));
    assert_eq!(iso_week(2010, 1, 1), (2009, 53));
    assert_eq!(iso_week(2010, 1, 2), (2009, 53));
    assert_eq!(iso_week(2010, 1, 3), (2009, 53));
    assert_eq!(iso_week(2014, 12, 23), (2014, 52));
    assert_eq!(iso_week(2014, 12, 28), (2014, 52));
    assert_eq!(iso_week(2014, 12, 29), (2015, 1));
    assert_eq!(iso_week(2015, 1, 1), (2015, 1));
    assert_eq!(iso_week(2015, 1, 5), (2015, 2));
    assert_eq!(iso_week(2015, 12, 28), (2015, 53));
    assert_eq!(iso_week(2015, 12, 31), (2015, 53));
    assert_eq!(iso_week(2016, 1, 2), (2015, 53));
}

#[test]
fn test_int_to_words() {
    assert_eq!(int_to_words(0), "zero");
    assert_eq!(int_to_words(1), "one");
    assert_eq!(int_to_words(18), "eighteen");
    assert_eq!(int_to_words(42), "forty-two");
    assert_eq!(
        int_to_words(1984),
        "one thousand, nine hundred and eighty-four"
    );
    assert_eq!(int_to_words(2018), "two thousand and eighteen");
}

#[test]
fn test_to_roman() {
    assert_eq!(to_roman(2018, true), "MMXVIII");
    assert_eq!(to_roman(1984, true), "MCMLXXXIV");
    assert_eq!(to_roman(3, false), "iii");
}

#[test]
fn test_format_default_iso() {
    assert_eq!(format_default_iso(0, 0), "1970-01-01T00:00:00.000Z");
    assert_eq!(format_default_iso(1, 0), "1970-01-01T00:00:00.001Z");
    assert_eq!(
        format_default_iso(1509380732935, 0),
        "2017-10-30T16:25:32.935Z"
    );
}

#[test]
fn week_of_month_follows_the_thursday() {
    let wom = |y, m, d| {
        let (_thy, _thm, thd) = iso_week_thursday(y, m, d);
        week_of_month(thd)
    };
    assert_eq!(wom(2013, 1, 29), 5);
    assert_eq!(wom(2013, 2, 1), 5);
    assert_eq!(wom(2013, 1, 3), 1);
    assert_eq!(wom(2013, 1, 7), 2);
    assert_eq!(wom(2013, 1, 6), 1);
    assert_eq!(wom(2013, 1, 31), 5);
}

#[test]
fn day_of_week_known_dates() {
    assert_eq!(day_of_week(1970, 1, 1), 4);
    assert_eq!(day_of_week(2000, 1, 1), 6);
    assert_eq!(day_of_week(2024, 2, 29), 4);
    assert_eq!(day_of_week(1600, 1, 1), 6);
    assert_eq!(day_of_week(1, 1, 1), 1);
}

#[test]
fn day_of_week_pre_1ce() {
    assert_eq!(day_of_week(0, 1, 1), 6);
    assert_eq!(day_of_week(0, 12, 31), 0);
    assert_eq!(day_of_week(-1, 12, 31), 5);
}
