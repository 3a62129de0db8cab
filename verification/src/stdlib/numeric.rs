//! Numbers: `$number`, `$abs`, `$floor`, `$ceil`, `$round`, `$power`, `$sqrt`,
//! `$random`, `$sum`, `$max`, `$min`, `$average` and `$formatBase`.
use vstd::prelude::*;

use super::args::{arg, context_arg_code, context_code, is_missing};
use crate::decimal::{
    dec_mag, decimal_number, fixed_chars, fixed_text, literal_mag, nearest_decimal, plain_chars, plain_text,
    read_decimal, read_literal,
};
use crate::error::{fail, out, JsonataError, JsonataResult};
use crate::number::{Number, INFINITE};
use crate::text::{chars_of, digit_value, find, find_char, magnitude, number_of, part, push_all, text_of, trim, trimmed};
use crate::value::{vals, Val, Value};

verus! {

// ── $number ──────────────────────────────────────────────────────────────────

/// Value of a digit in any base up to 36.
pub open spec fn any_digit(c: char) -> Option<int> {
    if '0' <= c <= '9' {
        Some(c as int - '0' as int)
    } else if 'a' <= c <= 'z' {
        Some(c as int - 'a' as int + 10)
    } else if 'A' <= c <= 'Z' {
        Some(c as int - 'A' as int + 10)
    } else {
        None
    }
}

fn read_any_digit(c: char) -> (r: Option<u32>)
    ensures
        match r {
            Some(v) => any_digit(c) == Some(v as int) && v < 36,
            None => any_digit(c) is None,
        },
{
    if '0' <= c && c <= '9' {
        Some(c as u32 - 48)
    } else if 'a' <= c && c <= 'z' {
        Some(c as u32 - 87)
    } else if 'A' <= c && c <= 'Z' {
        Some(c as u32 - 55)
    } else {
        None
    }
}

/// The number of digits in a base, if all are digits of it.
pub open spec fn based_number(s: Seq<char>, base: int) -> Option<int>
    decreases s.len(),
{
    if s.len() == 0 {
        Some(0)
    } else {
        match (based_number(s.drop_last(), base), any_digit(s.last())) {
            (Some(n), Some(d)) => if d < base {
                Some(n * base + d)
            } else {
                None
            },
            _ => None,
        }
    }
}

/// The 64-bit integer of a text in a base: an optional sign, then digits.
pub open spec fn based_integer(s: Seq<char>, base: int) -> Option<int> {
    let sign = s.len() > 0 && (s[0] == '+' || s[0] == '-');
    let d = if sign {
        s.skip(1)
    } else {
        s
    };
    match based_number(d, base) {
        Some(n) => {
            let v = if sign && s[0] == '-' {
                -n
            } else {
                n
            };
            if d.len() > 0 && i64::MIN <= v <= i64::MAX {
                Some(v)
            } else {
                None
            }
        },
        None => None,
    }
}

proof fn lemma_based_grows(s: Seq<char>, base: int, i: int)
    requires
        0 <= i <= s.len(),
        base >= 2,
        based_number(s, base) is Some,
    ensures
        based_number(s.take(i), base) is Some,
        0 <= based_number(s.take(i), base)->0 <= based_number(s, base)->0,
    decreases s.len(),
{
    if i == s.len() {
        assert(s.take(i) =~= s);
        if s.len() > 0 {
            lemma_based_grows(s.drop_last(), base, s.len() - 1);
            assert(s.drop_last().take(s.len() - 1) =~= s.drop_last());
            let n = based_number(s.drop_last(), base)->0;
            assert(n * base >= 0) by (nonlinear_arith)
                requires
                    n >= 0,
                    base >= 2,
            ;
        }
    } else {
        lemma_based_grows(s.drop_last(), base, i);
        assert(s.drop_last().take(i) =~= s.take(i));
        let n = based_number(s.drop_last(), base)->0;
        assert(n * base >= n) by (nonlinear_arith)
            requires
                n >= 0,
                base >= 2,
        ;
    }
}

fn read_based(s: &[char], base: u32) -> (r: Option<i64>)
    requires
        2 <= base <= 36,
    ensures
        match r {
            Some(v) => based_integer(s@, base as int) == Some(v as int),
            None => based_integer(s@, base as int) is None,
        },
{
    let sign: bool = s.len() > 0 && (s[0] == '+' || s[0] == '-');
    let d = if sign {
        part(s, 1, s.len())
    } else {
        part(s, 0, s.len())
    };
    assert(d@ =~= if sign {
        s@.skip(1)
    } else {
        s@
    });
    if d.len() == 0 {
        return None;
    }
    let negative: bool = sign && s[0] == '-';
    let mut n: i128 = 0;
    let mut i: usize = 0;
    assert(d@.take(0) =~= Seq::empty());
    while i < d.len()
        invariant
            i <= d.len(),
            2 <= base <= 36,
            0 <= n <= 0x8000_0000_0000_0000,
            based_number(d@.take(i as int), base as int) == Some(n as int),
            sign == (s@.len() > 0 && (s@[0] == '+' || s@[0] == '-')),
            d@ == if sign {
                s@.skip(1)
            } else {
                s@
            },
        decreases d.len() - i,
    {
        let ghost t = d@.take(i + 1);
        assert(t.drop_last() =~= d@.take(i as int));
        assert(t.last() == d@[i as int]);
        let ok: Option<u32> = match read_any_digit(d[i]) {
            Some(v) => if v < base {
                Some(v)
            } else {
                None
            },
            None => None,
        };
        match ok {
            Some(v) => {
                assert(0 <= n * base <= 0x8000_0000_0000_0000 * 36) by (nonlinear_arith)
                    requires
                        0 <= n <= 0x8000_0000_0000_0000,
                        2 <= base <= 36,
                ;
                n = n * base as i128 + v as i128;
                assert(based_number(t, base as int) == Some(n as int));
                if n > 0x8000_0000_0000_0000 {
                    proof {
                        if based_number(d@, base as int) is Some {
                            lemma_based_grows(d@, base as int, i + 1);
                        }
                    }
                    return None;
                }
            },
            None => {
                proof {
                    assert(based_number(t, base as int) is None);
                    if based_number(d@, base as int) is Some {
                        lemma_based_grows(d@, base as int, i + 1);
                    }
                }
                return None;
            },
        }
        i = i + 1;
    }
    assert(d@.take(i as int) =~= d@);
    let v: i128 = if negative {
        -n
    } else {
        n
    };
    if v > i64::MAX as i128 {
        return None;
    }
    Some(v as i64)
}

/// The base that the letter after a leading zero stands for.
pub open spec fn base_of(c: char) -> Option<int> {
    if c == 'x' || c == 'X' {
        Some(16)
    } else if c == 'b' || c == 'B' {
        Some(2)
    } else if c == 'o' || c == 'O' {
        Some(8)
    } else {
        None
    }
}

/// The number that a text stands for.
pub open spec fn text_number(text: Seq<char>) -> Option<Number> {
    let s = trimmed(text);
    if s.len() >= 2 && s[0] == '0' && base_of(s[1]) is Some {
        match based_integer(s.skip(2), base_of(s[1])->0) {
            Some(v) => Some(Number::of_int(v)),
            None => None,
        }
    } else {
        match decimal_number(s) {
            Some(n) => if n.finite() {
                Some(n)
            } else {
                None
            },
            None => None,
        }
    }
}

fn read_text_number(text: &[char]) -> (r: Option<Number>)
    ensures
        r == text_number(text@),
{
    let s = trim(text);
    if s.len() >= 2 && s[0] == '0' {
        let base: u32 = match s[1] {
            'x' | 'X' => 16,
            'b' | 'B' => 2,
            'o' | 'O' => 8,
            _ => 0,
        };
        if base > 0 {
            let rest = part(s.as_slice(), 2, s.len());
            assert(rest@ =~= s@.skip(2));
            return match read_based(rest.as_slice(), base) {
                Some(v) => Some(Number::from_i64(v)),
                None => None,
            };
        }
    }
    match read_decimal(s.as_slice()) {
        Some(n) => if n.is_finite() {
            Some(n)
        } else {
            None
        },
        None => None,
    }
}

/// A value cast to a number; `code` is for one that cannot be.
pub open spec fn cast_number(v: Val, code: Seq<char>) -> Result<Val, Seq<char>> {
    match v {
        Val::Undefined => Ok(Val::Undefined),
        Val::Number(n) => Ok(Val::Number(n)),
        Val::Bool(b) => Ok(
            Val::Number(
                Number::of_int(
                    if b {
                        1
                    } else {
                        0
                    },
                ),
            ),
        ),
        Val::String(s) => match text_number(s) {
            Some(n) => Ok(Val::Number(n)),
            None => Err("D3030"@),
        },
        _ => Err(code),
    }
}

/// What `$number` gives.
pub open spec fn number_result(a: Seq<Val>, focus: Val) -> Result<Val, Seq<char>> {
    if a.len() > 1 {
        Err("T0410"@)
    } else if a.len() == 1 {
        cast_number(a[0], context_code(false))
    } else {
        cast_number(focus, context_code(true))
    }
}

/// `$number(arg?)`: a value cast to a number.
pub fn fn_number(args: &[Value], focus: &Value) -> (r: JsonataResult)
    ensures
        out(r) == number_result(vals(args@), focus@),
{
    if args.len() > 1 {
        return fail("T0410", "$number: too many arguments");
    }
    let from_focus: bool = args.len() == 0;
    let v: &Value = if from_focus {
        focus
    } else {
        assert(vals(args@)[0] == args@[0]@);
        &args[0]
    };
    match v {
        Value::Undefined => Ok(Value::Undefined),
        Value::Number(n) => Ok(Value::Number(*n)),
        Value::Bool(b) => Ok(
            Value::Number(
                Number::from_i64(
                    if *b {
                        1
                    } else {
                        0
                    },
                ),
            ),
        ),
        Value::String(s) => match read_text_number(chars_of(s.as_str()).as_slice()) {
            Some(n) => Ok(Value::Number(n)),
            None => Err(
                JsonataError::about(
                    "D3030",
                    "$number: unable to cast \"",
                    trim(chars_of(s.as_str()).as_slice()).as_slice(),
                    "\" to a number",
                ),
            ),
        },
        Value::Null => fail(context_arg_code(from_focus), "$number: cannot cast null to number"),
        Value::Array(_) => fail(context_arg_code(from_focus), "$number: cannot cast array to number"),
        Value::Object(_) => fail(context_arg_code(from_focus), "$number: cannot cast object to number"),
        _ => fail(context_arg_code(from_focus), "$number: unsupported type"),
    }
}

// ── One number ───────────────────────────────────────────────────────────────

/// The number that an argument must be, or nothing where it is undefined.
pub open spec fn needed_number(a: Seq<Val>) -> Result<Option<Number>, Seq<char>> {
    if a.len() == 0 {
        Err("T0410"@)
    } else {
        match a[0] {
            Val::Undefined => Ok(None),
            Val::Number(n) => Ok(Some(n)),
            _ => Err("T0410"@),
        }
    }
}

pub open spec fn out_number(r: Result<Option<Number>, JsonataError>) -> Result<Option<Number>, Seq<char>> {
    match r {
        Ok(n) => Ok(n),
        Err(e) => Err(e.code@),
    }
}

fn require_number(args: &[Value], name: &str) -> (r: Result<Option<Number>, JsonataError>)
    ensures
        out_number(r) == needed_number(vals(args@)),
{
    if args.len() == 0 {
        return Err(JsonataError::about("T0410", name, &[], ": argument is required"));
    }
    assert(vals(args@)[0] == args@[0]@);
    match &args[0] {
        Value::Undefined => Ok(None),
        Value::Number(n) => Ok(Some(*n)),
        _ => Err(JsonataError::about("T0410", name, &[], ": argument must be a number")),
    }
}

/// A function of one number applied to the argument.
pub open spec fn of_number(a: Seq<Val>, f: spec_fn(Number) -> Number) -> Result<Val, Seq<char>> {
    match needed_number(a) {
        Ok(Some(n)) => Ok(Val::Number(f(n))),
        Ok(None) => Ok(Val::Undefined),
        Err(e) => Err(e),
    }
}

/// What `$abs` gives.
pub open spec fn abs_result(a: Seq<Val>) -> Result<Val, Seq<char>> {
    of_number(a, |n: Number| n.abs_spec())
}

/// `$abs(number)`: the absolute value.
pub fn fn_abs(args: &[Value], _focus: &Value) -> (r: JsonataResult)
    ensures
        out(r) == abs_result(vals(args@)),
{
    match require_number(args, "$abs") {
        Ok(Some(n)) => Ok(Value::Number(n.abs())),
        Ok(None) => Ok(Value::Undefined),
        Err(e) => Err(e),
    }
}

/// What `$floor` gives.
pub open spec fn floor_result(a: Seq<Val>) -> Result<Val, Seq<char>> {
    of_number(a, |n: Number| n.floor_spec())
}

/// `$floor(number)`: rounded down to a whole number.
pub fn fn_floor(args: &[Value], _focus: &Value) -> (r: JsonataResult)
    ensures
        out(r) == floor_result(vals(args@)),
{
    match require_number(args, "$floor") {
        Ok(Some(n)) => Ok(Value::Number(n.floor())),
        Ok(None) => Ok(Value::Undefined),
        Err(e) => Err(e),
    }
}

/// What `$ceil` gives.
pub open spec fn ceil_result(a: Seq<Val>) -> Result<Val, Seq<char>> {
    of_number(a, |n: Number| n.ceil_spec())
}

/// `$ceil(number)`: rounded up to a whole number.
pub fn fn_ceil(args: &[Value], _focus: &Value) -> (r: JsonataResult)
    ensures
        out(r) == ceil_result(vals(args@)),
{
    match require_number(args, "$ceil") {
        Ok(Some(n)) => Ok(Value::Number(n.ceil())),
        Ok(None) => Ok(Value::Undefined),
        Err(e) => Err(e),
    }
}

/// What `$sqrt` gives.
pub open spec fn sqrt_result(a: Seq<Val>) -> Result<Val, Seq<char>> {
    match needed_number(a) {
        Ok(Some(n)) => if n.lt_spec(Number::of_int(0)) {
            Err("D3060"@)
        } else {
            Ok(Val::Number(n.sqrt_spec()))
        },
        Ok(None) => Ok(Val::Undefined),
        Err(e) => Err(e),
    }
}

/// `$sqrt(number)`: the square root.
pub fn fn_sqrt(args: &[Value], _focus: &Value) -> (r: JsonataResult)
    ensures
        out(r) == sqrt_result(vals(args@)),
{
    match require_number(args, "$sqrt") {
        Ok(Some(n)) => {
            if n.lt(&Number::from_i64(0)) {
                return fail("D3060", "$sqrt: square root of a negative number");
            }
            Ok(Value::Number(n.sqrt()))
        },
        Ok(None) => Ok(Value::Undefined),
        Err(e) => Err(e),
    }
}

// ── $round ───────────────────────────────────────────────────────────────────

/// The double nearest to a power of ten.
pub open spec fn power_of_ten(q: int) -> Number {
    Number::make(false, dec_mag(1, q))
}

pub fn ten_to(q: i128) -> (r: Number)
    requires
        -0x1_0000_0000_0000_0000 <= q <= 0x1_0000_0000_0000_0000,
    ensures
        r == power_of_ten(q as int),
{
    let one = chars_of("1");
    proof {
        reveal_strlit("1");
        assert(one@ =~= seq!['1']);
        reveal_with_fuel(number_of, 2);
        assert(one@.drop_last() =~= Seq::<char>::empty());
        assert(number_of(one@) == 1);
    }
    Number::build(false, nearest_decimal(one.as_slice(), q))
}

/// The decimal text of a magnitude, with a point in it.
pub open spec fn pointed(m: int) -> Seq<char> {
    let s = plain_text(m);
    if find_char(s, '.', 0) is Some {
        s
    } else {
        s.push('.')
    }
}

/// Whether digits of which only `places` after the point are kept must be
/// rounded up: by the first digit that is left out, the others breaking a tie,
/// and the last kept digit after that. `dot` is where the point stands.
pub open spec fn rounds_up(s: Seq<char>, dot: int, places: int) -> bool {
    let next = digit_value(s[dot + 1 + places]);
    let last = if places > 0 {
        s[dot + places]
    } else if dot > 0 {
        s[dot - 1]
    } else {
        '0'
    };
    if next != 5 {
        next > 5
    } else {
        (exists|i: int| dot + 2 + places <= i < s.len() && s[i] != '0') || digit_value(last) % 2 != 0
    }
}

/// A magnitude rounded, half to even, to a number of decimal places, by the
/// digits of its shortest decimal text.
pub open spec fn rounded_mag(n: Number, places: int) -> Number {
    let s = pointed(n.mag());
    let dot = find_char(s, '.', 0)->0;
    if places >= s.len() - dot - 1 {
        n.abs_spec()
    } else {
        let kept = s.take(
            if places == 0 {
                dot
            } else {
                dot + 1 + places
            },
        );
        let base = literal_or_zero(kept);
        let moved = if rounds_up(s, dot, places) {
            base.plus_spec(power_of_ten(-places))
        } else {
            base
        };
        if !moved.finite() {
            moved
        } else {
            match literal_mag(fixed_text(moved.mag(), places as nat)) {
                Some(m) => Number::make(false, m),
                None => moved,
            }
        }
    }
}

pub open spec fn literal_or_zero(s: Seq<char>) -> Number {
    match literal_mag(s) {
        Some(m) => Number::make(false, m),
        None => Number::make(false, 0),
    }
}

/// A number rounded, half to even, to a number of decimal places.
pub open spec fn rounded_to(n: Number, places: int) -> Number {
    if !n.finite() {
        n
    } else if n.lt_spec(Number::of_int(0)) {
        rounded_mag(n, places).neg_spec()
    } else {
        rounded_mag(n, places)
    }
}

/// A number rounded, half to even, at a power of ten.
pub open spec fn rounded_at(n: Number, scale: int) -> Number {
    if scale >= 0 {
        rounded_to(n, scale)
    } else {
        rounded_to(n.over_spec(power_of_ten(-scale)), 0).times_spec(power_of_ten(-scale))
    }
}

fn has_remainder(s: &[char], from: usize) -> (r: bool)
    requires
        from <= s@.len(),
    ensures
        r == exists|i: int| from <= i < s@.len() && s@[i] != '0',
{
    let mut i: usize = from;
    while i < s.len()
        invariant
            from <= i <= s.len(),
            forall|k: int| from <= k < i ==> s@[k] == '0',
        decreases s.len() - i,
    {
        if s[i] != '0' {
            return true;
        }
        i = i + 1;
    }
    false
}

fn digit_number(c: char) -> (r: i64)
    ensures
        r == digit_value(c),
        -48 <= r <= 0x10ffff,
{
    c as i64 - 48
}

fn must_round_up(s: &[char], dot: usize, places: usize) -> (r: bool)
    requires
        dot + 1 + places < s@.len(),
    ensures
        r == rounds_up(s@, dot as int, places as int),
{
    let n: usize = s.len();
    let next: i64 = digit_number(s[dot + 1 + places]);
    let last: char = if places > 0 {
        s[dot + places]
    } else if dot > 0 {
        s[dot - 1]
    } else {
        '0'
    };
    if next != 5 {
        return next > 5;
    }
    if has_remainder(s, dot + 2 + places) {
        return true;
    }
    odd_number(digit_number(last))
}

fn odd_number(d: i64) -> (r: bool)
    requires
        -0x8000_0000 <= d <= 0x8000_0000,
    ensures
        r == (d as int % 2 != 0),
{
    if d >= 0 {
        d % 2 != 0
    } else {
        (-d) % 2 != 0
    }
}

proof fn lemma_find_some(s: Seq<char>, c: char, from: int, k: int)
    requires
        0 <= from <= k < s.len(),
        s[k] == c,
    ensures
        find_char(s, c, from) is Some,
    decreases k - from,
{
    if from < k && s[from] != c {
        lemma_find_some(s, c, from + 1, k);
    }
}

fn round_mag(n: &Number, places: usize) -> (r: Number)
    requires
        n.finite(),
        places < usize::MAX,
    ensures
        r == rounded_mag(*n, places as int),
{
    let mut s = plain_chars(n.magnitude());
    if find(s.as_slice(), '.', 0).is_none() {
        let ghost before = s@;
        s.push('.');
        proof {
            lemma_find_some(s@, '.', 0, before.len() as int);
        }
    }
    let dot: usize = match find(s.as_slice(), '.', 0) {
        Some(i) => i,
        None => {
            return n.abs();
        },
    };
    let len: usize = s.len();
    if places >= len - dot - 1 {
        return n.abs();
    }
    let kept = part(
        s.as_slice(),
        0,
        if places == 0 {
            dot
        } else {
            dot + 1 + places
        },
    );
    assert(kept@ =~= s@.take(
        if places == 0 {
            dot as int
        } else {
            dot + 1 + places
        },
    ));
    let base: Number = match read_literal(kept.as_slice()) {
        Some(m) => Number::build(false, m),
        None => Number::build(false, 0),
    };
    let moved: Number = if must_round_up(s.as_slice(), dot, places) {
        base.plus(&ten_to(-(places as i128)))
    } else {
        base
    };
    if !moved.is_finite() {
        return moved;
    }
    match read_literal(fixed_chars(moved.magnitude(), places).as_slice()) {
        Some(v) => Number::build(false, v),
        None => moved,
    }
}

/// A number rounded, half to even, at a power of ten.
pub fn bankers_round(n: Number, scale: i32) -> (r: Number)
    ensures
        r == rounded_at(n, scale as int),
{
    if scale >= 0 {
        return bankers_round_decimal(n, scale as usize);
    }
    let mult = ten_to(-(scale as i128));
    bankers_round_decimal(n.over(&mult), 0).times(&mult)
}

fn bankers_round_decimal(n: Number, places: usize) -> (r: Number)
    requires
        places < usize::MAX,
    ensures
        r == rounded_to(n, places as int),
{
    if !n.is_finite() {
        return n;
    }
    let m = round_mag(&n, places);
    if n.lt(&Number::from_i64(0)) {
        m.neg()
    } else {
        m
    }
}

/// What `$round` gives.
pub open spec fn round_result(a: Seq<Val>) -> Result<Val, Seq<char>> {
    match needed_number(a) {
        Err(e) => Err(e),
        Ok(None) => Ok(Val::Undefined),
        Ok(Some(n)) => match arg(a, 1) {
            Val::Undefined => Ok(Val::Number(rounded_at(n, 0))),
            Val::Number(k) => Ok(
                Val::Number(rounded_at(n, k.saturated(i32::MIN as int, i32::MAX as int))),
            ),
            _ => Err("T0410"@),
        },
    }
}

/// `$round(number, precision?)`: rounded half to even.
pub fn fn_round(args: &[Value], _focus: &Value) -> (r: JsonataResult)
    ensures
        out(r) == round_result(vals(args@)),
{
    let n: Number = match require_number(args, "$round") {
        Ok(Some(n)) => n,
        Ok(None) => {
            return Ok(Value::Undefined);
        },
        Err(e) => {
            return Err(e);
        },
    };
    if is_missing(args, 1) {
        return Ok(Value::Number(bankers_round(n, 0)));
    }
    assert(vals(args@)[1] == args@[1]@);
    match &args[1] {
        Value::Number(k) => Ok(Value::Number(bankers_round(n, k.to_i32()))),
        _ => fail("T0410", "$round: scale must be a number"),
    }
}

// ── $power and $random ───────────────────────────────────────────────────────

/// What `$power` makes of a power.
pub open spec fn checked_power(p: Number) -> Result<Val, Seq<char>> {
    if p.finite() {
        Ok(Val::Number(p))
    } else {
        Err("D3061"@)
    }
}

/// What `$power` gives before anything is raised, if that settles it.
pub open spec fn power_operands(a: Seq<Val>) -> Result<Option<(Number, Number)>, Seq<char>> {
    if a.len() < 2 {
        Err("T0410"@)
    } else if a[0] is Undefined || a[1] is Undefined {
        Ok(None)
    } else {
        match (a[0], a[1]) {
            (Val::Number(b), Val::Number(e)) => Ok(Some((b, e))),
            _ => Err("T0410"@),
        }
    }
}

/// Whether a function may give `p` for a base and an exponent.
pub open spec fn may_raise<F: Fn(Number, Number) -> Number>(f: F, b: Number, e: Number, p: Number) -> bool {
    f.ensures((b, e), p)
}

/// Whether a result is what `$power` makes of a power that `f` may give.
pub open spec fn powered<F: Fn(Number, Number) -> Number>(
    f: F,
    b: Number,
    e: Number,
    r: Result<Val, Seq<char>>,
) -> bool {
    exists|p: Number| #[trigger] may_raise(f, b, e, p) && r == checked_power(p)
}

/// `$power(base, exponent)`: a number raised to a power by `raise`.
pub fn fn_power<F: Fn(Number, Number) -> Number>(args: &[Value], _focus: &Value, raise: F) -> (r: JsonataResult)
    requires
        forall|b: Number, e: Number| #[trigger] raise.requires((b, e)),
    ensures
        power_operands(vals(args@)) matches Err(e) ==> out(r) == Err::<Val, Seq<char>>(e),
        power_operands(vals(args@)) == Ok::<Option<(Number, Number)>, Seq<char>>(None) ==> out(r) == Ok::<
            Val,
            Seq<char>,
        >(Val::Undefined),
        forall|b: Number, e: Number|
            power_operands(vals(args@)) == Ok::<Option<(Number, Number)>, Seq<char>>(Some((b, e))) ==> powered(
                raise,
                b,
                e,
                out(r),
            ),
{
    if args.len() < 2 {
        return fail("T0410", "$power: requires 2 arguments");
    }
    assert(vals(args@)[0] == args@[0]@);
    assert(vals(args@)[1] == args@[1]@);
    if args[0].is_undefined() || args[1].is_undefined() {
        return Ok(Value::Undefined);
    }
    match (&args[0], &args[1]) {
        (Value::Number(b), Value::Number(e)) => {
            let p = raise(*b, *e);
            assert(may_raise(raise, *b, *e, p));
            let r = if p.is_finite() {
                Ok(Value::Number(p))
            } else {
                fail("D3061", "$power: result is non-finite")
            };
            assert(powered(raise, *b, *e, out(r)));
            r
        },
        _ => fail("T0410", "$power: arguments must be numbers"),
    }
}

/// `fastrand::u64` on a range: some number in it, by chance.
#[verifier::external_body]
fn random_below(limit: u64) -> (r: u64)
    requires
        limit > 0,
    ensures
        r < limit,
{
    fastrand::u64(0..limit)
}

/// A fraction of one in steps of `2^-53`.
pub open spec fn unit_fraction(k: int) -> Number {
    Number::of_int(k).over_spec(Number::of_int(0x20_0000_0000_0000))
}

/// `$random` with `k` as what chance gave.
pub fn random_from(k: u64) -> (r: JsonataResult)
    ensures
        out(r) == Ok::<Val, Seq<char>>(Val::Number(unit_fraction(k as int))),
{
    Ok(Value::Number(Number::from_u64(k).over(&Number::from_u64(0x20_0000_0000_0000))))
}

/// `$random()`: a number from zero up to one, one excluded.
pub fn fn_random(_args: &[Value], _focus: &Value) -> (r: JsonataResult)
    ensures
        exists|k: u64|
            k < 0x20_0000_0000_0000u64 && out(r) == Ok::<Val, Seq<char>>(
                Val::Number(#[trigger] unit_fraction(k as int)),
            ),
{
    random_from(random_below(0x20_0000_0000_0000))
}

// ── Aggregates ───────────────────────────────────────────────────────────────

/// The numbers of an array, if it holds nothing else.
pub open spec fn all_numbers(a: Seq<Val>) -> Option<Seq<Number>>
    decreases a.len(),
{
    if a.len() == 0 {
        Some(Seq::empty())
    } else {
        match (all_numbers(a.drop_last()), a.last()) {
            (Some(s), Val::Number(n)) => Some(s.push(n)),
            _ => None,
        }
    }
}

/// The numbers that an argument stands for.
pub open spec fn numbers_in(v: Val) -> Option<Seq<Number>>
    decreases v,
{
    match v {
        Val::Number(n) => Some(seq![n]),
        Val::Array(a) => all_numbers(a),
        Val::Sequence(s) => if s.len() == 0 {
            None
        } else if s.len() == 1 {
            numbers_in(s[0])
        } else {
            all_numbers(s)
        },
        _ => None,
    }
}

pub open spec fn same_numbers(r: Option<Vec<Number>>, want: Option<Seq<Number>>) -> bool {
    match r {
        Some(v) => want == Some(v@),
        None => want is None,
    }
}

proof fn lemma_not_all_numbers(a: Seq<Val>, i: int)
    requires
        0 <= i < a.len(),
        !(a[i] is Number),
    ensures
        all_numbers(a) is None,
    decreases a.len(),
{
    if i < a.len() - 1 {
        lemma_not_all_numbers(a.drop_last(), i);
    }
}

fn collect_numbers(a: &Vec<Value>) -> (r: Option<Vec<Number>>)
    ensures
        same_numbers(r, all_numbers(vals(a@))),
{
    let ghost v = vals(a@);
    let mut r: Vec<Number> = Vec::new();
    let mut i: usize = 0;
    assert(v.take(0) =~= Seq::empty());
    assert(r@ =~= Seq::<Number>::empty());
    while i < a.len()
        invariant
            i <= a.len(),
            v == vals(a@),
            all_numbers(v.take(i as int)) == Some(r@),
        decreases a.len() - i,
    {
        assert(v[i as int] == a@[i as int]@);
        assert(v.take(i + 1).drop_last() =~= v.take(i as int));
        match &a[i] {
            Value::Number(n) => {
                r.push(*n);
            },
            _ => {
                proof {
                    lemma_not_all_numbers(v, i as int);
                }
                return None;
            },
        }
        i = i + 1;
    }
    assert(v.take(i as int) =~= v);
    Some(r)
}

fn to_number_array(v: &Value) -> (r: Option<Vec<Number>>)
    ensures
        same_numbers(r, numbers_in(v@)),
    decreases v,
{
    match v {
        Value::Number(n) => {
            let mut r: Vec<Number> = Vec::new();
            r.push(*n);
            assert(r@ =~= seq![*n]);
            Some(r)
        },
        Value::Array(a) => collect_numbers(a),
        Value::Sequence(s) => {
            if s.values.len() == 0 {
                return None;
            }
            if s.values.len() == 1 {
                assert(vals(s.values@)[0] == s.values@[0]@);
                return to_number_array(&s.values[0]);
            }
            collect_numbers(&s.values)
        },
        _ => None,
    }
}

/// The sum of numbers, added up in order.
pub open spec fn sum_of(s: Seq<Number>) -> Number
    decreases s.len(),
{
    if s.len() == 0 {
        Number::of_int(0)
    } else {
        sum_of(s.drop_last()).plus_spec(s.last())
    }
}

fn total(s: &Vec<Number>) -> (r: Number)
    ensures
        r == sum_of(s@),
{
    let mut r = Number::from_i64(0);
    let mut i: usize = 0;
    assert(s@.take(0) =~= Seq::empty());
    while i < s.len()
        invariant
            i <= s.len(),
            r == sum_of(s@.take(i as int)),
        decreases s.len() - i,
    {
        assert(s@.take(i + 1).drop_last() =~= s@.take(i as int));
        r = r.plus(&s[i]);
        i = i + 1;
    }
    assert(s@.take(i as int) =~= s@);
    r
}

/// The larger of two numbers; one that is not a number gives way.
pub open spec fn larger(a: Number, b: Number) -> Number {
    if a.nan() {
        b
    } else if b.nan() || !a.lt_spec(b) {
        a
    } else {
        b
    }
}

/// The largest of numbers.
pub open spec fn largest(s: Seq<Number>) -> Number
    decreases s.len(),
{
    if s.len() == 0 {
        Number::make(true, INFINITE as int)
    } else {
        larger(largest(s.drop_last()), s.last())
    }
}

fn maximum(s: &Vec<Number>) -> (r: Number)
    ensures
        r == largest(s@),
{
    let mut r = Number::infinity(true);
    let mut i: usize = 0;
    assert(s@.take(0) =~= Seq::empty());
    while i < s.len()
        invariant
            i <= s.len(),
            r == largest(s@.take(i as int)),
        decreases s.len() - i,
    {
        assert(s@.take(i + 1).drop_last() =~= s@.take(i as int));
        if r.is_nan() || (!s[i].is_nan() && r.lt(&s[i])) {
            r = s[i];
        }
        i = i + 1;
    }
    assert(s@.take(i as int) =~= s@);
    r
}

/// The smaller of two numbers; one that is not a number gives way.
pub open spec fn smaller(a: Number, b: Number) -> Number {
    if a.nan() {
        b
    } else if b.nan() || !b.lt_spec(a) {
        a
    } else {
        b
    }
}

/// The smallest of numbers.
pub open spec fn smallest(s: Seq<Number>) -> Number
    decreases s.len(),
{
    if s.len() == 0 {
        Number::make(false, INFINITE as int)
    } else {
        smaller(smallest(s.drop_last()), s.last())
    }
}

fn minimum(s: &Vec<Number>) -> (r: Number)
    ensures
        r == smallest(s@),
{
    let mut r = Number::infinity(false);
    let mut i: usize = 0;
    assert(s@.take(0) =~= Seq::empty());
    while i < s.len()
        invariant
            i <= s.len(),
            r == smallest(s@.take(i as int)),
        decreases s.len() - i,
    {
        assert(s@.take(i + 1).drop_last() =~= s@.take(i as int));
        if r.is_nan() || (!s[i].is_nan() && s[i].lt(&r)) {
            r = s[i];
        }
        i = i + 1;
    }
    assert(s@.take(i as int) =~= s@);
    r
}

/// An aggregate of the numbers of the argument.
pub open spec fn aggregate(a: Seq<Val>, f: spec_fn(Seq<Number>) -> Val) -> Result<Val, Seq<char>> {
    if a.len() == 0 {
        Err("T0410"@)
    } else if a[0] is Undefined {
        Ok(Val::Undefined)
    } else {
        match numbers_in(a[0]) {
            Some(s) => Ok(f(s)),
            None => Err("T0412"@),
        }
    }
}

fn aggregate_numbers(args: &[Value], name: &str) -> (r: Result<Option<Vec<Number>>, JsonataError>)
    ensures
        match r {
            Ok(Some(v)) => args@.len() > 0 && !(vals(args@)[0] is Undefined) && numbers_in(vals(args@)[0]) == Some(
                v@,
            ),
            Ok(None) => args@.len() > 0 && vals(args@)[0] is Undefined,
            Err(e) => aggregate(vals(args@), |s: Seq<Number>| Val::Null) == Err::<Val, Seq<char>>(e.code@),
        },
{
    if args.len() == 0 {
        return Err(JsonataError::about("T0410", name, &[], ": argument 1 is required"));
    }
    assert(vals(args@)[0] == args@[0]@);
    if args[0].is_undefined() {
        return Ok(None);
    }
    match to_number_array(&args[0]) {
        Some(v) => Ok(Some(v)),
        None => Err(JsonataError::about("T0412", name, &[], ": argument must be an array of numbers")),
    }
}

/// What `$sum` gives.
pub open spec fn sum_result(a: Seq<Val>) -> Result<Val, Seq<char>> {
    aggregate(a, |s: Seq<Number>| Val::Number(sum_of(s)))
}

/// `$sum(array)`: the sum.
pub fn fn_sum(args: &[Value], _focus: &Value) -> (r: JsonataResult)
    ensures
        out(r) == sum_result(vals(args@)),
{
    match aggregate_numbers(args, "$sum") {
        Ok(Some(v)) => Ok(Value::Number(total(&v))),
        Ok(None) => Ok(Value::Undefined),
        Err(e) => Err(e),
    }
}

/// The largest of numbers, if there are any.
pub open spec fn largest_value(s: Seq<Number>) -> Val {
    if s.len() == 0 {
        Val::Undefined
    } else {
        Val::Number(largest(s))
    }
}

/// What `$max` gives.
pub open spec fn max_result(a: Seq<Val>) -> Result<Val, Seq<char>> {
    aggregate(a, |s: Seq<Number>| largest_value(s))
}

/// `$max(array)`: the largest.
pub fn fn_max(args: &[Value], _focus: &Value) -> (r: JsonataResult)
    ensures
        out(r) == max_result(vals(args@)),
{
    match aggregate_numbers(args, "$max") {
        Ok(Some(v)) => {
            if v.len() == 0 {
                return Ok(Value::Undefined);
            }
            Ok(Value::Number(maximum(&v)))
        },
        Ok(None) => Ok(Value::Undefined),
        Err(e) => Err(e),
    }
}

/// The smallest of numbers, if there are any.
pub open spec fn smallest_value(s: Seq<Number>) -> Val {
    if s.len() == 0 {
        Val::Undefined
    } else {
        Val::Number(smallest(s))
    }
}

/// What `$min` gives.
pub open spec fn min_result(a: Seq<Val>) -> Result<Val, Seq<char>> {
    aggregate(a, |s: Seq<Number>| smallest_value(s))
}

/// `$min(array)`: the smallest.
pub fn fn_min(args: &[Value], _focus: &Value) -> (r: JsonataResult)
    ensures
        out(r) == min_result(vals(args@)),
{
    match aggregate_numbers(args, "$min") {
        Ok(Some(v)) => {
            if v.len() == 0 {
                return Ok(Value::Undefined);
            }
            Ok(Value::Number(minimum(&v)))
        },
        Ok(None) => Ok(Value::Undefined),
        Err(e) => Err(e),
    }
}

/// The mean of numbers, if there are any.
pub open spec fn mean_value(s: Seq<Number>) -> Val {
    if s.len() == 0 {
        Val::Undefined
    } else {
        Val::Number(sum_of(s).over_spec(Number::of_int(s.len() as int)))
    }
}

/// What `$average` gives.
pub open spec fn average_result(a: Seq<Val>) -> Result<Val, Seq<char>> {
    aggregate(a, |s: Seq<Number>| mean_value(s))
}

/// `$average(array)`: the mean.
pub fn fn_average(args: &[Value], _focus: &Value) -> (r: JsonataResult)
    ensures
        out(r) == average_result(vals(args@)),
{
    match aggregate_numbers(args, "$average") {
        Ok(Some(v)) => {
            if v.len() == 0 {
                return Ok(Value::Undefined);
            }
            Ok(Value::Number(total(&v).over(&Number::from_usize(v.len()))))
        },
        Ok(None) => Ok(Value::Undefined),
        Err(e) => Err(e),
    }
}

// ── $formatBase ──────────────────────────────────────────────────────────────

/// The digit of a value in any base up to 36.
pub open spec fn digit_letter(d: int) -> char {
    if d < 10 {
        ('0' as int + d) as char
    } else {
        ('a' as int + d - 10) as char
    }
}

/// A number in a base.
pub open spec fn based_text(n: nat, base: nat) -> Seq<char>
    decreases n,
{
    if base < 2 || n < base {
        seq![digit_letter(n as int)]
    } else {
        proof {
            vstd::arithmetic::div_mod::lemma_div_decreases(n as int, base as int);
        }
        based_text(n / base, base).push(digit_letter((n % base) as int))
    }
}

fn letter_of_digit(d: u8) -> (r: char)
    requires
        d < 36,
    ensures
        r == digit_letter(d as int),
{
    if d < 10 {
        (48 + d) as char
    } else {
        (87 + d) as char
    }
}

fn format_radix(n: u64, base: u32) -> (r: Vec<char>)
    requires
        2 <= base <= 36,
    ensures
        r@ == based_text(n as nat, base as nat),
    decreases n,
{
    if n < base as u64 {
        let mut r: Vec<char> = Vec::new();
        r.push(letter_of_digit(n as u8));
        assert(r@ =~= based_text(n as nat, base as nat));
        return r;
    }
    proof {
        vstd::arithmetic::div_mod::lemma_div_decreases(n as int, base as int);
    }
    let mut r = format_radix(n / base as u64, base);
    r.push(letter_of_digit((n % base as u64) as u8));
    r
}

/// A number, rounded to an integer, in a base.
pub open spec fn base_text(n: Number, base: int) -> Seq<char> {
    let v = n.round_spec().saturated(i64::MIN as int, i64::MAX as int);
    if v < 0 {
        seq!['-'] + based_text((-v) as nat, base as nat)
    } else {
        based_text(v as nat, base as nat)
    }
}

/// What `$formatBase` gives.
pub open spec fn format_base(a: Seq<Val>) -> Result<Val, Seq<char>> {
    match needed_number(a) {
        Err(e) => Err(e),
        Ok(None) => Ok(Val::Undefined),
        Ok(Some(n)) => match match arg(a, 1) {
            Val::Undefined => Ok(10),
            Val::Number(b) => Ok(b.saturated(0, u32::MAX as int)),
            _ => Err("T0410"@),
        } {
            Err(e) => Err(e),
            Ok(base) => if 2 <= base <= 36 {
                Ok(Val::String(base_text(n, base)))
            } else {
                Err("D3100"@)
            },
        },
    }
}

/// `$formatBase(number, radix?)`: an integer in a base.
pub fn fn_format_base(args: &[Value], _focus: &Value) -> (r: JsonataResult)
    ensures
        out(r) == format_base(vals(args@)),
{
    if args.len() == 0 {
        return fail("T0410", "$formatBase: requires at least 1 argument");
    }
    assert(vals(args@)[0] == args@[0]@);
    let n: Number = match &args[0] {
        Value::Undefined => {
            return Ok(Value::Undefined);
        },
        Value::Number(n) => *n,
        _ => {
            return fail("T0410", "$formatBase: first argument must be a number");
        },
    };
    let base: u32 = if is_missing(args, 1) {
        10
    } else {
        assert(vals(args@)[1] == args@[1]@);
        match &args[1] {
            Value::Number(b) => b.to_u32(),
            _ => {
                return fail("T0410", "$formatBase: second argument must be a number");
            },
        }
    };
    if base < 2 || base > 36 {
        return fail("D3100", "$formatBase: radix must be between 2 and 36");
    }
    let v: i64 = n.round().to_i64();
    let d = format_radix(magnitude(v), base);
    let mut t: Vec<char> = Vec::new();
    if v < 0 {
        t.push('-');
    }
    push_all(&mut t, d.as_slice());
    assert(t@ =~= base_text(n, base as int));
    Ok(Value::String(text_of(t.as_slice())))
}

} // verus!
