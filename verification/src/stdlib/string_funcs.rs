//! Text: `$string`, `$length`, `$substring`, `$substringBefore`,
//! `$substringAfter`, `$uppercase`, `$lowercase`, `$trim`, `$pad`,
//! `$contains`, `$split`, `$join`, and the Base64 and URL encodings.
use base64::Engine;
use vstd::prelude::*;
use vstd::utf8::{decode_utf8, encode_utf8, valid_utf8};

use super::args::{arg, context_arg_code, context_code};
use super::regex::{compile_regex, checked, full_pattern, pieces, regex_captures, text_member, Regex};
use crate::error::{fail, out, JsonataError, JsonataResult};
use crate::number::Number;
use crate::stringify::stringified;
use crate::text::{
    chars_of, find_seq, find_text, joined, lowercase, occurs_at, part, push_all, push_text, split_from, split_text,
    std_is_whitespace, std_lowercase, std_uppercase, text_of, texts_of, trim, trimmed, uppercase, white_space,
};
use crate::value::{member, number_in, vals, ObjectMap, Val, Value};

verus! {

/// The argument of a function that falls back on the context.
pub open spec fn arg_or_focus(a: Seq<Val>, focus: Val) -> Val {
    if a.len() == 0 {
        focus
    } else {
        a[0]
    }
}

fn get_arg_or_focus<'a>(args: &'a [Value], focus: &'a Value) -> (r: &'a Value)
    ensures
        r@ == arg_or_focus(vals(args@), focus@),
{
    if args.len() == 0 {
        focus
    } else {
        assert(vals(args@)[0] == args@[0]@);
        &args[0]
    }
}

// ── $string and $length ──────────────────────────────────────────────────────

/// What `$string` gives.
pub open spec fn string(a: Seq<Val>, focus: Val) -> Result<Val, Seq<char>> {
    let v = arg_or_focus(a, focus);
    if v is Undefined {
        Ok(Val::Undefined)
    } else {
        match stringified(v, arg(a, 1) == Val::Bool(true)) {
            Ok(s) => Ok(Val::String(s)),
            Err(e) => Err(e),
        }
    }
}

/// `$string(value, prettify)`: a value as text.
pub fn fn_string(args: &[Value], focus: &Value) -> (r: JsonataResult)
    ensures
        out(r) == string(vals(args@), focus@),
{
    let v = get_arg_or_focus(args, focus);
    if v.is_undefined() {
        return Ok(Value::Undefined);
    }
    let mut prettify: bool = false;
    if args.len() > 1 {
        assert(vals(args@)[1] == args@[1]@);
        if let Value::Bool(b) = &args[1] {
            prettify = *b;
        }
    }
    v.stringify(prettify)
}

/// What `$length` gives.
pub open spec fn length(a: Seq<Val>, focus: Val) -> Result<Val, Seq<char>> {
    if a.len() > 1 {
        Err("T0410"@)
    } else {
        match arg_or_focus(a, focus) {
            Val::Undefined => if a.len() == 0 {
                Err("T0411"@)
            } else {
                Ok(Val::Undefined)
            },
            Val::String(s) => Ok(Val::Number(Number::of_int(s.len() as int))),
            _ => Err(context_code(a.len() == 0)),
        }
    }
}

/// `$length(text)`: how many characters a text has.
pub fn fn_length(args: &[Value], focus: &Value) -> (r: JsonataResult)
    ensures
        out(r) == length(vals(args@), focus@),
{
    if args.len() > 1 {
        return fail("T0410", "$length: expects 1 argument");
    }
    let from_focus: bool = args.len() == 0;
    match get_arg_or_focus(args, focus) {
        Value::Undefined => if from_focus {
            fail("T0411", "$length: argument is required")
        } else {
            Ok(Value::Undefined)
        },
        Value::String(s) => Ok(Value::Number(Number::from_usize(chars_of(s.as_str()).len()))),
        _ => fail(context_arg_code(from_focus), "$length: argument must be a string"),
    }
}

// ── $substring ───────────────────────────────────────────────────────────────

/// Where a part begins: a negative start counts from the end.
pub open spec fn part_start(len: int, start: int) -> int {
    if start < 0 {
        if len + start < 0 {
            0
        } else {
            len + start
        }
    } else if start > len {
        len
    } else {
        start
    }
}

/// The part of a text from a start, of a length at most.
pub open spec fn part_of(s: Seq<char>, start: int, length: Option<int>) -> Seq<char> {
    let rest = s.skip(part_start(s.len() as int, start));
    match length {
        Some(n) => if n < rest.len() {
            rest.take(n)
        } else {
            rest
        },
        None => rest,
    }
}

/// What `$substring` gives.
pub open spec fn substring(a: Seq<Val>) -> Result<Val, Seq<char>> {
    if a.len() < 2 || a.len() > 3 {
        Err("T0410"@)
    } else {
        match a[0] {
            Val::Undefined => Ok(Val::Undefined),
            Val::String(s) => match number_in(a[1]) {
                None => Err("T0410"@),
                Some(n) => {
                    let start = n.saturated(i64::MIN as int, i64::MAX as int);
                    if a.len() == 2 {
                        Ok(Val::String(part_of(s, start, None)))
                    } else {
                        match number_in(a[2]) {
                            None => Err("T0410"@),
                            Some(l) => Ok(
                                Val::String(part_of(s, start, Some(l.saturated(0, usize::MAX as int)))),
                            ),
                        }
                    }
                },
            },
            _ => Err("T0410"@),
        }
    }
}

fn take_part(s: &[char], start: i64, length: Option<usize>) -> (r: Vec<char>)
    ensures
        r@ == part_of(
            s@,
            start as int,
            match length {
                Some(n) => Some(n as int),
                None => None,
            },
        ),
{
    let len: i128 = s.len() as i128;
    let from: usize = if start < 0 {
        if len + (start as i128) < 0 {
            0
        } else {
            (len + start as i128) as usize
        }
    } else if start as i128 > len {
        s.len()
    } else {
        start as usize
    };
    let mut to: usize = s.len();
    match length {
        Some(n) => {
            if n < to - from {
                to = from + n;
            }
        },
        None => {},
    }
    let r = part(s, from, to);
    assert(r@ =~= part_of(
        s@,
        start as int,
        match length {
            Some(n) => Some(n as int),
            None => None,
        },
    ));
    r
}

/// `$substring(text, start, length)`: a part of a text, in characters.
pub fn fn_substring(args: &[Value], _focus: &Value) -> (r: JsonataResult)
    ensures
        out(r) == substring(vals(args@)),
{
    if args.len() < 2 {
        return fail("T0410", "$substring: requires at least 2 arguments");
    }
    if args.len() > 3 {
        return fail("T0410", "$substring: too many arguments");
    }
    assert(vals(args@)[0] == args@[0]@);
    assert(vals(args@)[1] == args@[1]@);
    let s = match &args[0] {
        Value::Undefined => {
            return Ok(Value::Undefined);
        },
        Value::String(s) => chars_of(s.as_str()),
        _ => {
            return fail("T0410", "$substring: argument 1 must be a string");
        },
    };
    let start: i64 = match args[1].as_number() {
        Some(n) => n.to_i64(),
        None => {
            return fail("T0410", "$substring: argument 2 must be a number");
        },
    };
    let mut length: Option<usize> = None;
    if args.len() == 3 {
        assert(vals(args@)[2] == args@[2]@);
        match args[2].as_number() {
            Some(n) => {
                length = Some(n.to_usize());
            },
            None => {
                return fail("T0410", "$substring: argument 3 must be a number");
            },
        }
    }
    let t = take_part(s.as_slice(), start, length);
    Ok(Value::String(text_of(t.as_slice())))
}

// ── $substringBefore and $substringAfter ─────────────────────────────────────

/// The text and the separator, of which the text may come from the context.
pub open spec fn text_and_separator(a: Seq<Val>, focus: Val) -> Result<Option<(Seq<char>, Seq<char>)>, Seq<char>> {
    if a.len() > 2 {
        Err("T0410"@)
    } else if a.len() == 0 {
        Err("T0411"@)
    } else {
        let text = if a.len() == 2 {
            a[0]
        } else {
            focus
        };
        match text {
            Val::Undefined => Ok(None),
            Val::String(s) => match a.last() {
                Val::String(sep) => Ok(Some((s, sep))),
                _ => Err("T0410"@),
            },
            _ => Err(context_code(a.len() == 1)),
        }
    }
}

pub open spec fn out_pair(r: Result<Option<(Vec<char>, Vec<char>)>, JsonataError>) -> Result<
    Option<(Seq<char>, Seq<char>)>,
    Seq<char>,
> {
    match r {
        Ok(Some((a, b))) => Ok(Some((a@, b@))),
        Ok(None) => Ok(None),
        Err(e) => Err(e.code@),
    }
}

fn get_text_and_separator(args: &[Value], focus: &Value, name: &str) -> (r: Result<
    Option<(Vec<char>, Vec<char>)>,
    JsonataError,
>)
    ensures
        out_pair(r) == text_and_separator(vals(args@), focus@),
{
    if args.len() > 2 {
        return Err(JsonataError::about("T0410", name, &[], ": too many arguments"));
    }
    if args.len() == 0 {
        return Err(JsonataError::about("T0411", name, &[], ": requires 2 arguments"));
    }
    let n: usize = args.len();
    assert(vals(args@)[0] == args@[0]@);
    assert(vals(args@).last() == args@[n - 1]@);
    let text = if n == 2 {
        &args[0]
    } else {
        focus
    };
    let s = match text {
        Value::Undefined => {
            return Ok(None);
        },
        Value::String(s) => chars_of(s.as_str()),
        _ => {
            return Err(JsonataError::about(context_arg_code(n == 1), name, &[], ": argument 1 must be a string"));
        },
    };
    match &args[n - 1] {
        Value::String(sep) => Ok(Some((s, chars_of(sep.as_str())))),
        _ => Err(JsonataError::about("T0410", name, &[], ": argument 2 must be a string")),
    }
}

/// What stands before the first occurrence of a separator, or the whole text.
pub open spec fn before(s: Seq<char>, sep: Seq<char>) -> Seq<char> {
    match find_seq(s, sep, 0) {
        Some(i) => s.take(i),
        None => s,
    }
}

/// What stands after the first occurrence of a separator, or the whole text.
pub open spec fn after(s: Seq<char>, sep: Seq<char>) -> Seq<char> {
    match find_seq(s, sep, 0) {
        Some(i) => s.skip(i + sep.len()),
        None => s,
    }
}

/// What `$substringBefore` gives.
pub open spec fn substring_before(a: Seq<Val>, focus: Val) -> Result<Val, Seq<char>> {
    match text_and_separator(a, focus) {
        Err(e) => Err(e),
        Ok(None) => Ok(Val::Undefined),
        Ok(Some((s, sep))) => Ok(Val::String(before(s, sep))),
    }
}

/// What `$substringAfter` gives.
pub open spec fn substring_after(a: Seq<Val>, focus: Val) -> Result<Val, Seq<char>> {
    match text_and_separator(a, focus) {
        Err(e) => Err(e),
        Ok(None) => Ok(Val::Undefined),
        Ok(Some((s, sep))) => Ok(Val::String(after(s, sep))),
    }
}

/// `$substringBefore(text, separator)`: what stands before the first
/// occurrence of a separator.
pub fn fn_substring_before(args: &[Value], focus: &Value) -> (r: JsonataResult)
    ensures
        out(r) == substring_before(vals(args@), focus@),
{
    match get_text_and_separator(args, focus, "$substringBefore") {
        Err(e) => Err(e),
        Ok(None) => Ok(Value::Undefined),
        Ok(Some((s, sep))) => match find_text(s.as_slice(), sep.as_slice(), 0) {
            Some(i) => {
                let t = part(s.as_slice(), 0, i);
                assert(t@ =~= s@.take(i as int));
                Ok(Value::String(text_of(t.as_slice())))
            },
            None => Ok(Value::String(text_of(s.as_slice()))),
        },
    }
}

/// `$substringAfter(text, separator)`: what stands after the first occurrence
/// of a separator.
pub fn fn_substring_after(args: &[Value], focus: &Value) -> (r: JsonataResult)
    ensures
        out(r) == substring_after(vals(args@), focus@),
{
    match get_text_and_separator(args, focus, "$substringAfter") {
        Err(e) => Err(e),
        Ok(None) => Ok(Value::Undefined),
        Ok(Some((s, sep))) => match find_text(s.as_slice(), sep.as_slice(), 0) {
            Some(i) => {
                let n: usize = s.len();
                let t = part(s.as_slice(), i + sep.len(), n);
                assert(t@ =~= s@.skip(i + sep@.len()));
                Ok(Value::String(text_of(t.as_slice())))
            },
            None => Ok(Value::String(text_of(s.as_slice()))),
        },
    }
}

proof fn lemma_found(s: Seq<char>, sep: Seq<char>, from: int)
    requires
        0 <= from,
    ensures
        find_seq(s, sep, from) matches Some(i) ==> from <= i && occurs_at(s, sep, i),
    decreases s.len() + 1 - from,
{
    if from <= s.len() && !occurs_at(s, sep, from) {
        lemma_found(s, sep, from + 1);
    }
}

/// Where a separator occurs, what stands before it, the separator and what
/// stands after it make up the text.
pub proof fn law_before_and_after(s: Seq<char>, sep: Seq<char>)
    requires
        find_seq(s, sep, 0) is Some,
    ensures
        before(s, sep) + sep + after(s, sep) == s,
{
    lemma_found(s, sep, 0);
    let i = find_seq(s, sep, 0)->0;
    assert(s.take(i) + s.subrange(i, i + sep.len()) + s.skip(i + sep.len()) =~= s);
}

// ── $uppercase and $lowercase ────────────────────────────────────────────────

/// What `$uppercase` gives.
pub open spec fn upper(a: Seq<Val>, focus: Val) -> Result<Val, Seq<char>> {
    match arg_or_focus(a, focus) {
        Val::Undefined => Ok(Val::Undefined),
        Val::String(s) => Ok(Val::String(uppercase(s))),
        _ => Err(context_code(a.len() == 0)),
    }
}

/// `$uppercase(text)`: a text in upper case.
pub fn fn_uppercase(args: &[Value], focus: &Value) -> (r: JsonataResult)
    ensures
        out(r) == upper(vals(args@), focus@),
{
    match get_arg_or_focus(args, focus) {
        Value::Undefined => Ok(Value::Undefined),
        Value::String(s) => Ok(Value::String(std_uppercase(s.as_str()))),
        _ => fail(context_arg_code(args.len() == 0), "$uppercase: argument must be a string"),
    }
}

/// What `$lowercase` gives.
pub open spec fn lower(a: Seq<Val>, focus: Val) -> Result<Val, Seq<char>> {
    match arg_or_focus(a, focus) {
        Val::Undefined => Ok(Val::Undefined),
        Val::String(s) => Ok(Val::String(lowercase(s))),
        _ => Err(context_code(a.len() == 0)),
    }
}

/// `$lowercase(text)`: a text in lower case.
pub fn fn_lowercase(args: &[Value], focus: &Value) -> (r: JsonataResult)
    ensures
        out(r) == lower(vals(args@), focus@),
{
    match get_arg_or_focus(args, focus) {
        Value::Undefined => Ok(Value::Undefined),
        Value::String(s) => Ok(Value::String(std_lowercase(s.as_str()))),
        _ => fail(context_arg_code(args.len() == 0), "$lowercase: argument must be a string"),
    }
}

// ── $trim ────────────────────────────────────────────────────────────────────

/// A text with each run of white space made one space.
pub open spec fn collapsed_spaces(s: Seq<char>) -> Seq<char>
    decreases s.len(),
{
    if s.len() == 0 {
        Seq::empty()
    } else {
        let before = collapsed_spaces(s.drop_last());
        if !white_space(s.last()) {
            before.push(s.last())
        } else if s.len() >= 2 && white_space(s[s.len() - 2]) {
            before
        } else {
            before.push(' ')
        }
    }
}

/// What `$trim` gives.
pub open spec fn trim_spec(a: Seq<Val>, focus: Val) -> Result<Val, Seq<char>> {
    match arg_or_focus(a, focus) {
        Val::Undefined => Ok(Val::Undefined),
        Val::String(s) => Ok(Val::String(collapsed_spaces(trimmed(s)))),
        _ => Err(context_code(a.len() == 0)),
    }
}

fn collapse_spaces(s: &[char]) -> (r: Vec<char>)
    ensures
        r@ == collapsed_spaces(s@),
{
    let mut r: Vec<char> = Vec::new();
    let mut prev_space: bool = false;
    let mut i: usize = 0;
    assert(s@.take(0) =~= Seq::empty());
    while i < s.len()
        invariant
            i <= s.len(),
            r@ == collapsed_spaces(s@.take(i as int)),
            prev_space == (i > 0 && white_space(s@[i - 1])),
        decreases s.len() - i,
    {
        assert(s@.take(i + 1).drop_last() =~= s@.take(i as int));
        if i > 0 {
            assert(s@.take(i + 1)[i - 1] == s@[i - 1]);
        }
        if std_is_whitespace(s[i]) {
            if !prev_space {
                r.push(' ');
            }
            prev_space = true;
        } else {
            r.push(s[i]);
            prev_space = false;
        }
        i = i + 1;
    }
    assert(s@.take(i as int) =~= s@);
    r
}

/// `$trim(text)`: a text without white space at its ends and with single
/// spaces within.
pub fn fn_trim(args: &[Value], focus: &Value) -> (r: JsonataResult)
    ensures
        out(r) == trim_spec(vals(args@), focus@),
{
    match get_arg_or_focus(args, focus) {
        Value::Undefined => Ok(Value::Undefined),
        Value::String(s) => {
            let t = trim(chars_of(s.as_str()).as_slice());
            Ok(Value::String(text_of(collapse_spaces(t.as_slice()).as_slice())))
        },
        _ => fail(context_arg_code(args.len() == 0), "$trim: argument must be a string"),
    }
}

// ── $pad ─────────────────────────────────────────────────────────────────────

/// The widest that `$pad` makes a text.
pub const MAX_PAD_WIDTH: i64 = 10_000;

/// The first `n` characters of a text repeated without end.
pub open spec fn cycled(p: Seq<char>, n: int) -> Seq<char> {
    Seq::new(n as nat, |i: int| p[i % (p.len() as int)])
}

/// A text padded to a width: at the end, or before it where the width is
/// negative.
pub open spec fn padded(s: Seq<char>, width: int, p: Seq<char>) -> Seq<char> {
    let need = (if width < 0 {
        -width
    } else {
        width
    }) - s.len();
    if need <= 0 {
        s
    } else if width > 0 {
        s + cycled(p, need)
    } else {
        cycled(p, need) + s
    }
}

/// What `$pad` gives.
pub open spec fn pad(a: Seq<Val>) -> Result<Val, Seq<char>> {
    if a.len() < 2 {
        Err("T0410"@)
    } else {
        match a[0] {
            Val::Undefined => Ok(Val::Undefined),
            Val::String(s) => match number_in(a[1]) {
                None => Err("T0410"@),
                Some(n) => {
                    let width = n.saturated(i64::MIN as int, i64::MAX as int);
                    let p = match arg(a, 2) {
                        Val::String(c) if c.len() > 0 => c,
                        _ => seq![' '],
                    };
                    if width < -MAX_PAD_WIDTH || width > MAX_PAD_WIDTH {
                        Err("D3010"@)
                    } else {
                        Ok(Val::String(padded(s, width, p)))
                    }
                },
            },
            _ => Err("T0410"@),
        }
    }
}

fn cycle(p: &[char], n: usize) -> (r: Vec<char>)
    requires
        p@.len() > 0,
    ensures
        r@ == cycled(p@, n as int),
{
    let mut r: Vec<char> = Vec::new();
    let mut i: usize = 0;
    while i < n
        invariant
            i <= n,
            p@.len() > 0,
            r@ =~= cycled(p@, i as int),
        decreases n - i,
    {
        r.push(p[i % p.len()]);
        i = i + 1;
    }
    r
}

/// `$pad(text, width, with)`: a text padded to a width.
pub fn fn_pad(args: &[Value], _focus: &Value) -> (r: JsonataResult)
    ensures
        out(r) == pad(vals(args@)),
{
    if args.len() < 2 {
        return fail("T0410", "$pad: requires at least 2 arguments");
    }
    assert(vals(args@)[0] == args@[0]@);
    assert(vals(args@)[1] == args@[1]@);
    let s = match &args[0] {
        Value::Undefined => {
            return Ok(Value::Undefined);
        },
        Value::String(s) => chars_of(s.as_str()),
        _ => {
            return fail("T0410", "$pad: first argument must be a string");
        },
    };
    let width: i64 = match args[1].as_number() {
        Some(n) => n.to_i64(),
        None => {
            return fail("T0410", "$pad: width must be a number");
        },
    };
    if width < -MAX_PAD_WIDTH || width > MAX_PAD_WIDTH {
        return fail("D3010", "$pad: width argument exceeds maximum of 10000");
    }
    let mut p: Vec<char> = Vec::new();
    p.push(' ');
    assert(p@ =~= seq![' ']);
    if args.len() >= 3 {
        assert(vals(args@)[2] == args@[2]@);
        if let Value::String(c) = &args[2] {
            let given = chars_of(c.as_str());
            if given.len() > 0 {
                p = given;
            }
        }
    }
    let needed: usize = if width < 0 {
        (-width) as usize
    } else {
        width as usize
    };
    if s.len() >= needed {
        return Ok(Value::String(text_of(s.as_slice())));
    }
    let padding = cycle(p.as_slice(), needed - s.len());
    let mut r: Vec<char> = Vec::new();
    if width > 0 {
        push_all(&mut r, s.as_slice());
        push_all(&mut r, padding.as_slice());
    } else {
        push_all(&mut r, padding.as_slice());
        push_all(&mut r, s.as_slice());
    }
    assert(r@ =~= padded(s@, width as int, p@));
    Ok(Value::String(text_of(r.as_slice())))
}

/// A padded text is as wide as was asked, or as it was where that is more.
pub proof fn law_padded_width(s: Seq<char>, width: int, p: Seq<char>)
    requires
        p.len() > 0,
    ensures
        padded(s, width, p).len() == (if width < 0 && -width > s.len() {
            -width
        } else if width > s.len() {
            width
        } else {
            s.len() as int
        }),
{
}

// ── $contains ────────────────────────────────────────────────────────────────

/// Whether an object stands for a pattern.
pub open spec fn is_pattern(o: Seq<(Seq<char>, Val)>) -> bool {
    member(o, "pattern"@) is Some
}

/// The pattern that an object stands for; a failure of the engine has the code
/// of the function that asks.
pub open spec fn pattern_in(o: Seq<(Seq<char>, Val)>) -> Result<Option<Seq<char>>, Seq<char>> {
    match member(o, "pattern"@) {
        Some(Val::String(p)) => match checked(full_pattern(p, text_member(o, "flags"@))) {
            Ok(source) => Ok(Some(source)),
            Err(_) => Err("D3010"@),
        },
        _ => Ok(None),
    }
}

pub open spec fn out_pattern(r: Result<Option<Regex>, JsonataError>) -> Result<Option<Seq<char>>, Seq<char>> {
    match r {
        Ok(Some(re)) => Ok(Some(re@)),
        Ok(None) => Ok(None),
        Err(e) => Err(e.code@),
    }
}

fn get_pattern(o: &ObjectMap, message: &str) -> (r: Result<Option<Regex>, JsonataError>)
    ensures
        out_pattern(r) == pattern_in(o@),
{
    match o.get("pattern") {
        Some(Value::String(p)) => {
            let flags = match o.get("flags") {
                Some(Value::String(f)) => f.as_str(),
                _ => {
                    proof {
                        reveal_strlit("");
                        assert(""@ =~= Seq::<char>::empty());
                    }
                    ""
                },
            };
            match compile_regex(p.as_str(), flags) {
                Ok(re) => Ok(Some(re)),
                Err(e) => Err(JsonataError::ending("D3010", message, chars_of(e.message.as_str()).as_slice())),
            }
        },
        _ => Ok(None),
    }
}

/// What `$contains` gives.
pub open spec fn contains(a: Seq<Val>, focus: Val) -> Result<Val, Seq<char>> {
    if a.len() == 0 {
        Err("T0410"@)
    } else {
        let text = if a.len() >= 2 {
            a[0]
        } else {
            focus
        };
        let pattern = if a.len() >= 2 {
            a[1]
        } else {
            a[0]
        };
        match text {
            Val::Undefined => Ok(Val::Undefined),
            Val::String(s) => match pattern {
                Val::String(p) => Ok(Val::Bool(find_seq(s, p, 0) is Some)),
                Val::Object(o) => if is_pattern(o) {
                    match pattern_in(o) {
                        Ok(Some(source)) => Ok(Val::Bool(regex_captures(source, s).len() > 0)),
                        Ok(None) => Ok(Val::Bool(false)),
                        Err(e) => Err(e),
                    }
                } else {
                    Err("T0410"@)
                },
                _ => Err("T0410"@),
            },
            _ => Err(context_code(a.len() == 1)),
        }
    }
}

/// `$contains(text, pattern)`: whether a text or a pattern occurs in a text.
pub fn fn_contains(args: &[Value], focus: &Value) -> (r: JsonataResult)
    ensures
        out(r) == contains(vals(args@), focus@),
{
    if args.len() == 0 {
        return fail("T0410", "$contains: requires 2 arguments");
    }
    assert(vals(args@)[0] == args@[0]@);
    if args.len() >= 2 {
        assert(vals(args@)[1] == args@[1]@);
    }
    let from_focus: bool = args.len() == 1;
    let text = if from_focus {
        focus
    } else {
        &args[0]
    };
    let pattern = if from_focus {
        &args[0]
    } else {
        &args[1]
    };
    let s = match text {
        Value::Undefined => {
            return Ok(Value::Undefined);
        },
        Value::String(s) => s.as_str(),
        _ => {
            return fail(context_arg_code(from_focus), "$contains: first argument must be a string");
        },
    };
    match pattern {
        Value::String(p) => Ok(
            Value::Bool(find_text(chars_of(s).as_slice(), chars_of(p.as_str()).as_slice(), 0).is_some()),
        ),
        Value::Object(o) => if o.contains_key("pattern") {
            match get_pattern(o, "$contains: invalid regex: ") {
                Ok(Some(re)) => Ok(Value::Bool(re.is_match(s))),
                Ok(None) => Ok(Value::Bool(false)),
                Err(e) => Err(e),
            }
        } else {
            fail("T0410", "$contains: second argument must be a string or regex")
        },
        _ => fail("T0410", "$contains: second argument must be a string or regex"),
    }
}

// ── $split ───────────────────────────────────────────────────────────────────

/// Each character of a text as a text of its own.
pub open spec fn single_chars(s: Seq<char>) -> Seq<Seq<char>> {
    s.map_values(|c: char| seq![c])
}

/// Texts as values, as many as a limit lets through.
pub open spec fn first_texts(parts: Seq<Seq<char>>, limit: Option<int>) -> Val {
    let n = match limit {
        Some(l) => if l < parts.len() {
            l
        } else {
            parts.len() as int
        },
        None => parts.len() as int,
    };
    Val::Array(parts.take(n).map_values(|t: Seq<char>| Val::String(t)))
}

/// The limit of `$split`.
pub open spec fn split_limit(v: Val) -> Result<Option<int>, Seq<char>> {
    match v {
        Val::Undefined => Ok(None),
        Val::Number(n) => if n.lt_spec(Number::of_int(0)) {
            Err("D3020"@)
        } else {
            Ok(Some(n.saturated(0, usize::MAX as int)))
        },
        _ => Err("T0410"@),
    }
}

/// What `$split` gives.
pub open spec fn split(a: Seq<Val>) -> Result<Val, Seq<char>> {
    if a.len() == 0 {
        Err("T0410"@)
    } else {
        match a[0] {
            Val::String(s) => if a.len() < 2 {
                Err("T0410"@)
            } else {
                match split_limit(arg(a, 2)) {
                    Err(e) => Err(e),
                    Ok(limit) => match a[1] {
                        Val::String(sep) => if sep.len() == 0 {
                            Ok(first_texts(single_chars(s), limit))
                        } else {
                            Ok(first_texts(split_from(s, sep, 0, 0), limit))
                        },
                        Val::Object(o) => if is_pattern(o) {
                            match pattern_in(o) {
                                Ok(Some(source)) => Ok(
                                    first_texts(pieces(s, regex_captures(source, s), 0, 0), limit),
                                ),
                                Ok(None) => Ok(Val::Array(seq![Val::String(s)])),
                                Err(e) => Err(e),
                            }
                        } else {
                            Err("T0410"@)
                        },
                        Val::Function(_) => Err("T1010"@),
                        _ => Err("T0410"@),
                    },
                }
            },
            _ => Ok(Val::Undefined),
        }
    }
}

fn split_chars(s: &[char]) -> (r: Vec<Vec<char>>)
    ensures
        texts_of(r@) == single_chars(s@),
{
    let mut r: Vec<Vec<char>> = Vec::new();
    let mut i: usize = 0;
    while i < s.len()
        invariant
            i <= s.len(),
            r@.len() == i,
            forall|q: int| 0 <= q < i ==> (#[trigger] r@[q])@ == seq![s@[q]],
        decreases s.len() - i,
    {
        let mut one: Vec<char> = Vec::new();
        one.push(s[i]);
        assert(one@ =~= seq![s@[i as int]]);
        r.push(one);
        i = i + 1;
    }
    assert(texts_of(r@) =~= single_chars(s@));
    r
}

spec fn as_int(limit: Option<usize>) -> Option<int> {
    match limit {
        Some(n) => Some(n as int),
        None => None,
    }
}

fn take_texts(parts: &Vec<Vec<char>>, limit: Option<usize>) -> (r: Value)
    ensures
        r@ == first_texts(texts_of(parts@), as_int(limit)),
{
    let n: usize = match limit {
        Some(l) => if l < parts.len() {
            l
        } else {
            parts.len()
        },
        None => parts.len(),
    };
    let mut r: Vec<Value> = Vec::new();
    let mut i: usize = 0;
    while i < n
        invariant
            i <= n <= parts@.len(),
            r@.len() == i,
            forall|q: int| 0 <= q < i ==> (#[trigger] vals(r@)[q]) == Val::String(parts@[q]@),
        decreases n - i,
    {
        let ghost before = r@;
        let x = Value::String(text_of(parts[i].as_slice()));
        r.push(x);
        assert(vals(r@) =~= vals(before).push(x@));
        i = i + 1;
    }
    let ghost want = texts_of(parts@).take(n as int).map_values(|t: Seq<char>| Val::String(t));
    assert(vals(r@) =~= want);
    Value::Array(r)
}

fn take_strings(parts: &Vec<String>, limit: Option<usize>) -> (r: Value)
    ensures
        r@ == first_texts(parts@.map_values(|p: String| p@), as_int(limit)),
{
    let ghost all = parts@.map_values(|p: String| p@);
    let n: usize = match limit {
        Some(l) => if l < parts.len() {
            l
        } else {
            parts.len()
        },
        None => parts.len(),
    };
    let mut r: Vec<Value> = Vec::new();
    let mut i: usize = 0;
    while i < n
        invariant
            i <= n <= parts@.len(),
            r@.len() == i,
            forall|q: int| 0 <= q < i ==> (#[trigger] vals(r@)[q]) == Val::String(parts@[q]@),
        decreases n - i,
    {
        let ghost before = r@;
        let x = Value::String(parts[i].clone());
        r.push(x);
        assert(vals(r@) =~= vals(before).push(x@));
        i = i + 1;
    }
    let ghost want = all.take(n as int).map_values(|t: Seq<char>| Val::String(t));
    assert(vals(r@) =~= want);
    Value::Array(r)
}

fn get_split_limit(args: &[Value]) -> (r: Result<Option<usize>, JsonataError>)
    ensures
        match r {
            Ok(limit) => split_limit(arg(vals(args@), 2)) == Ok::<Option<int>, Seq<char>>(as_int(limit)),
            Err(e) => split_limit(arg(vals(args@), 2)) == Err::<Option<int>, Seq<char>>(e.code@),
        },
{
    if args.len() <= 2 {
        return Ok(None);
    }
    assert(vals(args@)[2] == args@[2]@);
    match &args[2] {
        Value::Undefined => Ok(None),
        Value::Number(n) => if n.lt(&Number::from_usize(0)) {
            Err(JsonataError::new("D3020", "$split: third argument must not be negative"))
        } else {
            Ok(Some(n.to_usize()))
        },
        _ => Err(JsonataError::new("T0410", "$split: third argument must be a number")),
    }
}

/// `$split(text, separator, limit)`: the pieces of a text between occurrences
/// of a separator or of a pattern; without a separator, its characters.
pub fn fn_split(args: &[Value], _focus: &Value) -> (r: JsonataResult)
    ensures
        out(r) == split(vals(args@)),
{
    if args.len() == 0 {
        return fail("T0410", "$split: requires at least 2 arguments");
    }
    assert(vals(args@)[0] == args@[0]@);
    let s = match &args[0] {
        Value::String(s) => s.as_str(),
        _ => {
            return Ok(Value::Undefined);
        },
    };
    if args.len() < 2 {
        return fail("T0410", "$split: requires at least 2 arguments");
    }
    assert(vals(args@)[1] == args@[1]@);
    let limit = match get_split_limit(args) {
        Ok(l) => l,
        Err(e) => {
            return Err(e);
        },
    };
    match &args[1] {
        Value::String(sep) => {
            let c = chars_of(s);
            let p = chars_of(sep.as_str());
            let parts = if p.len() == 0 {
                split_chars(c.as_slice())
            } else {
                split_text(c.as_slice(), p.as_slice())
            };
            Ok(take_texts(&parts, limit))
        },
        Value::Object(o) => if o.contains_key("pattern") {
            match get_pattern(o, "$split: invalid regex: ") {
                Ok(Some(re)) => Ok(take_strings(&re.split(s), limit)),
                Ok(None) => {
                    let mut r: Vec<Value> = Vec::new();
                    r.push(Value::String(s.to_owned()));
                    assert(vals(r@) =~= seq![Val::String(s@)]);
                    Ok(Value::Array(r))
                },
                Err(e) => Err(e),
            }
        } else {
            fail("T0410", "$split: separator must be a string or regex")
        },
        Value::Function(_) => fail("T1010", "$split: second argument must be a string or regex"),
        _ => fail("T0410", "$split: separator must be a string or regex"),
    }
}

// ── $join ────────────────────────────────────────────────────────────────────

/// The texts of values, if they are nothing else.
pub open spec fn all_texts(s: Seq<Val>) -> Option<Seq<Seq<char>>>
    decreases s.len(),
{
    if s.len() == 0 {
        Some(Seq::empty())
    } else {
        match (all_texts(s.drop_last()), s.last()) {
            (Some(t), Val::String(x)) => Some(t.push(x)),
            _ => None,
        }
    }
}

/// What `$join` gives.
pub open spec fn join(a: Seq<Val>) -> Result<Val, Seq<char>> {
    if a.len() == 0 {
        Err("T0410"@)
    } else {
        match a[0] {
            Val::Undefined => Ok(Val::Undefined),
            Val::String(s) => Ok(Val::String(s)),
            Val::Array(s) => match arg(a, 1) {
                Val::Undefined => match all_texts(s) {
                    Some(t) => Ok(Val::String(joined(t, Seq::empty()))),
                    None => Err("T0412"@),
                },
                Val::String(sep) => match all_texts(s) {
                    Some(t) => Ok(Val::String(joined(t, sep))),
                    None => Err("T0412"@),
                },
                _ => Err("T0410"@),
            },
            _ => Err("T0412"@),
        }
    }
}

proof fn lemma_not_texts(s: Seq<Val>, i: int)
    requires
        0 <= i <= s.len(),
        all_texts(s.take(i)) is None,
    ensures
        all_texts(s) is None,
    decreases s.len() - i,
{
    if i == s.len() {
        assert(s.take(i) =~= s);
    } else {
        assert(s.take(i + 1).drop_last() =~= s.take(i));
        lemma_not_texts(s, i + 1);
    }
}

proof fn lemma_all_texts_len(s: Seq<Val>)
    ensures
        all_texts(s) matches Some(t) ==> t.len() == s.len(),
    decreases s.len(),
{
    if s.len() > 0 {
        lemma_all_texts_len(s.drop_last());
    }
}

fn join_texts(items: &Vec<Value>, sep: &[char]) -> (r: Option<Vec<char>>)
    ensures
        match (r, all_texts(vals(items@))) {
            (Some(t), Some(parts)) => t@ == joined(parts, sep@),
            (None, None) => true,
            _ => false,
        },
{
    let ghost all = vals(items@);
    let mut r: Vec<char> = Vec::new();
    let mut i: usize = 0;
    assert(all.take(0) =~= Seq::empty());
    while i < items.len()
        invariant
            i <= items.len(),
            all == vals(items@),
            all_texts(all.take(i as int)) is Some,
            r@ == joined(all_texts(all.take(i as int))->0, sep@),
        decreases items.len() - i,
    {
        assert(all.take(i + 1).drop_last() =~= all.take(i as int));
        assert(all[i as int] == items@[i as int]@);
        let ghost so_far = all_texts(all.take(i as int))->0;
        proof {
            lemma_all_texts_len(all.take(i as int));
        }
        match &items[i] {
            Value::String(s) => {
                if i > 0 {
                    push_all(&mut r, sep);
                }
                push_text(&mut r, s.as_str());
                assert(so_far.push(s@).drop_last() =~= so_far);
                assert(r@ =~= joined(so_far.push(s@), sep@));
            },
            _ => {
                proof {
                    lemma_not_texts(all, i + 1);
                }
                return None;
            },
        }
        i = i + 1;
    }
    assert(all.take(i as int) =~= all);
    Some(r)
}

/// `$join(array, separator)`: texts put together with a separator between them.
pub fn fn_join(args: &[Value], _focus: &Value) -> (r: JsonataResult)
    ensures
        out(r) == join(vals(args@)),
{
    if args.len() == 0 {
        return fail("T0410", "$join: argument is required");
    }
    assert(vals(args@)[0] == args@[0]@);
    let items = match &args[0] {
        Value::Undefined => {
            return Ok(Value::Undefined);
        },
        Value::String(s) => {
            return Ok(Value::String(s.clone()));
        },
        Value::Array(a) => a,
        _ => {
            return fail("T0412", "$join: argument must be an array of strings");
        },
    };
    let mut sep: Vec<char> = Vec::new();
    assert(sep@ =~= Seq::<char>::empty());
    if args.len() > 1 {
        assert(vals(args@)[1] == args@[1]@);
        match &args[1] {
            Value::Undefined => {},
            Value::String(s) => {
                sep = chars_of(s.as_str());
            },
            _ => {
                return fail("T0410", "$join: separator must be a string");
            },
        }
    }
    match join_texts(items, sep.as_slice()) {
        Some(t) => Ok(Value::String(text_of(t.as_slice()))),
        None => fail("T0412", "$join: array must contain only strings"),
    }
}

} // verus!
