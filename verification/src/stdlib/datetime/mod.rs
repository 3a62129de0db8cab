//! Dates and times: `$now`, `$millis`, `$fromMillis` and `$toMillis`.
pub mod calendar;
pub mod component_laws;
pub mod format;
pub mod laws;
pub mod parse;
pub mod round_trip;
pub mod tz;
pub mod words;

use vstd::prelude::*;

use self::format::{formatted, iso_chars, iso_text, moment_at, moment_of, picture_chars};
use self::parse::{iso_millis, iso_to_millis, out_ms, parse_with_picture_at, picture_ms};
use self::tz::{parse_tz, zone_offset};
use super::args::{arg, context_arg_code, context_code, is_missing, optional_text, optional_text_arg};
use crate::error::{fail, out, JsonataError, JsonataResult};
use crate::number::Number;
use crate::text::{chars_of, text_of};
use crate::value::{vals, Val, Value};

verus! {

/// `std::time::SystemTime::now`: the current time in milliseconds since the
/// epoch. Nothing is claimed of the result: it is whatever the clock says.
#[verifier::external_body]
fn current_millis() -> (r: i64) {
    std::time::SystemTime::now().duration_since(std::time::UNIX_EPOCH).unwrap_or_default().as_millis() as i64
}

/// The offset that a time zone argument stands for, in seconds.
pub open spec fn zone_arg(v: Val) -> Result<int, Seq<char>> {
    match v {
        Val::Undefined => Ok(0),
        Val::String(s) => match zone_offset(s) {
            Some(o) => Ok(o),
            None => Err("D3137"@),
        },
        _ => Err("T0410"@),
    }
}

/// The offset that a time zone argument stands for.
fn read_zone(args: &[Value], i: usize) -> (r: Result<i32, JsonataError>)
    ensures
        match r {
            Ok(o) => zone_arg(arg(vals(args@), i as int)) == Ok::<int, Seq<char>>(o as int) && o > i32::MIN,
            Err(e) => zone_arg(arg(vals(args@), i as int)) == Err::<int, Seq<char>>(e.code@),
        },
{
    if is_missing(args, i) {
        return Ok(0);
    }
    assert(vals(args@)[i as int] == args@[i as int]@);
    match &args[i] {
        Value::String(s) => parse_tz(chars_of(s.as_str()).as_slice()),
        _ => Err(JsonataError::new("T0410", "timezone must be a string")),
    }
}

/// A time by a picture, or in ISO 8601 notation where there is none.
pub open spec fn time_text(ms: int, picture: Option<Seq<char>>, tz: int) -> Result<Val, Seq<char>> {
    match picture {
        Some(p) => match formatted(p, moment_of(ms, tz)) {
            Ok(t) => Ok(Val::String(t)),
            Err(e) => Err(e),
        },
        None => Ok(Val::String(iso_text(moment_of(ms, tz)))),
    }
}

fn write_time(ms: i64, picture: Option<Vec<char>>, tz: i32) -> (r: JsonataResult)
    requires
        tz > i32::MIN,
    ensures
        out(r) == time_text(
            ms as int,
            match picture {
                Some(p) => Some(p@),
                None => None,
            },
            tz as int,
        ),
{
    match picture {
        Some(p) => match picture_chars(ms, p.as_slice(), tz) {
            Ok(t) => Ok(Value::String(text_of(t.as_slice()))),
            Err(e) => Err(e),
        },
        None => {
            let t = moment_at(ms, tz);
            Ok(Value::String(text_of(iso_chars(&t).as_slice())))
        },
    }
}

/// What `$now` gives at a time.
pub open spec fn now_result(a: Seq<Val>, now: int) -> Result<Val, Seq<char>> {
    match optional_text(arg(a, 0)) {
        Err(e) => Err(e),
        Ok(picture) => match zone_arg(arg(a, 1)) {
            Err(e) => Err(e),
            Ok(tz) => time_text(now, picture, tz),
        },
    }
}

/// `$now` with `now` as the current time in epoch milliseconds.
pub fn now_at(args: &[Value], now: i64) -> (r: JsonataResult)
    ensures
        out(r) == now_result(vals(args@), now as int),
{
    let picture = match optional_text_arg(args, 0, "$now: picture argument must be a string") {
        Ok(p) => p,
        Err(e) => {
            return Err(e);
        },
    };
    match read_zone(args, 1) {
        Ok(tz) => write_time(now, picture, tz),
        Err(e) => Err(e),
    }
}

/// `$now(picture?, timezone?)`: the current time as text. The time zone
/// applies with or without a picture.
pub fn fn_now(args: &[Value], _focus: &Value) -> (r: JsonataResult)
    ensures
        exists|now: i64| out(r) == #[trigger] now_result(vals(args@), now as int),
{
    now_at(args, current_millis())
}

/// What `$millis` gives at a time.
pub open spec fn millis_result(now: int) -> Result<Val, Seq<char>> {
    Ok(Val::Number(Number::of_int(now)))
}

/// `$millis` with `now` as the current time in epoch milliseconds.
pub fn millis_at(now: i64) -> (r: JsonataResult)
    ensures
        out(r) == millis_result(now as int),
{
    Ok(Value::Number(Number::from_i64(now)))
}

/// `$millis()`: the current time as a number.
pub fn fn_millis(_args: &[Value], _focus: &Value) -> (r: JsonataResult)
    ensures
        exists|now: i64| out(r) == #[trigger] millis_result(now as int),
{
    millis_at(current_millis())
}

/// What `$fromMillis` gives.
pub open spec fn from_millis(a: Seq<Val>, focus: Val) -> Result<Val, Seq<char>> {
    match if a.len() == 0 {
        focus
    } else {
        a[0]
    } {
        Val::Undefined => Ok(Val::Undefined),
        Val::Number(n) => match zone_arg(arg(a, 2)) {
            Err(e) => Err(e),
            Ok(tz) => match optional_text(arg(a, 1)) {
                Err(e) => Err(e),
                Ok(picture) => time_text(n.saturated(i64::MIN as int, i64::MAX as int), picture, tz),
            },
        },
        _ => Err(context_code(a.len() == 0)),
    }
}

/// `$fromMillis(millis, picture?, timezone?)`: a time as text.
pub fn fn_from_millis(args: &[Value], focus: &Value) -> (r: JsonataResult)
    ensures
        out(r) == from_millis(vals(args@), focus@),
{
    let from_focus: bool = args.len() == 0;
    let first: &Value = if from_focus {
        focus
    } else {
        assert(vals(args@)[0] == args@[0]@);
        &args[0]
    };
    let ms: i64 = match first {
        Value::Undefined => {
            return Ok(Value::Undefined);
        },
        Value::Number(n) => n.to_i64(),
        _ => {
            return fail(context_arg_code(from_focus), "$fromMillis: argument must be a number");
        },
    };
    let tz: i32 = match read_zone(args, 2) {
        Ok(tz) => tz,
        Err(e) => {
            return Err(e);
        },
    };
    match optional_text_arg(args, 1, "$fromMillis: picture argument must be a string") {
        Ok(picture) => write_time(ms, picture, tz),
        Err(e) => Err(e),
    }
}

/// Milliseconds as a number, or nothing.
pub open spec fn ms_value(ms: Option<int>) -> Val {
    match ms {
        Some(m) => Val::Number(Number::of_int(m)),
        None => Val::Undefined,
    }
}

/// What `$toMillis` gives at a time.
pub open spec fn to_millis(a: Seq<Val>, now: int) -> Result<Val, Seq<char>> {
    match arg(a, 0) {
        Val::Undefined => Ok(Val::Undefined),
        Val::String(s) => match optional_text(arg(a, 1)) {
            Err(e) => Err(e),
            Ok(Some(p)) => match picture_ms(s, p, now) {
                Ok(ms) => Ok(ms_value(ms)),
                Err(e) => Err(e),
            },
            Ok(None) => match iso_millis(s) {
                Some(ms) => Ok(ms_value(Some(ms))),
                None => Err("D3110"@),
            },
        },
        _ => Err("T0410"@),
    }
}

/// `$toMillis` with `now` as the current time in epoch milliseconds.
pub fn to_millis_at(args: &[Value], now: i64) -> (r: JsonataResult)
    ensures
        out(r) == to_millis(vals(args@), now as int),
{
    if is_missing(args, 0) {
        return Ok(Value::Undefined);
    }
    assert(vals(args@)[0] == args@[0]@);
    let s = match &args[0] {
        Value::String(s) => chars_of(s.as_str()),
        _ => {
            return fail("T0410", "$toMillis: argument must be a string");
        },
    };
    let picture = match optional_text_arg(args, 1, "$toMillis: picture argument must be a string") {
        Ok(p) => p,
        Err(e) => {
            return Err(e);
        },
    };
    match picture {
        Some(p) => match parse_with_picture_at(s.as_slice(), p.as_slice(), now) {
            Ok(Some(ms)) => Ok(Value::Number(Number::from_i64(ms))),
            Ok(None) => Ok(Value::Undefined),
            Err(e) => Err(e),
        },
        None => parse_iso_to_millis(s.as_slice()),
    }
}

/// Epoch milliseconds of a text in one of the ISO 8601 notations, as a value.
pub fn parse_iso_to_millis(s: &[char]) -> (r: JsonataResult)
    ensures
        out(r) == match iso_millis(s@) {
            Some(ms) => Ok(ms_value(Some(ms))),
            None => Err::<Val, Seq<char>>("D3110"@),
        },
{
    match iso_to_millis(s) {
        Some(ms) => Ok(Value::Number(Number::from_i64(ms))),
        None => Err(
            JsonataError::about("D3110", "$toMillis: the value '", s, "' does not match the standard datetime format"),
        ),
    }
}

/// What a picture makes of a text now: the current time completes a time of
/// day that has no date.
pub fn parse_with_picture(input: &str, picture: &str) -> (r: Result<Option<i64>, JsonataError>)
    ensures
        exists|now: i64| out_ms(r) == #[trigger] picture_ms(input@, picture@, now as int),
{
    parse_with_picture_at(chars_of(input).as_slice(), chars_of(picture).as_slice(), current_millis())
}

/// `$toMillis(str, picture?)`: a time from text.
pub fn fn_to_millis(args: &[Value], _focus: &Value) -> (r: JsonataResult)
    ensures
        exists|now: i64| out(r) == #[trigger] to_millis(vals(args@), now as int),
{
    to_millis_at(args, current_millis())
}

} // verus!
