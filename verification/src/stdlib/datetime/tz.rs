//! Time zone offsets: reading and writing them.
use vstd::prelude::*;

use crate::error::JsonataError;
use crate::text::{
    all_digits, ascii_upper, chars_of, digit, is_digit, is_text, nat_chars, nat_text, number_of, occurs_at, parse_int,
    parse_spec, part, push_all, push_repeated, push_text, repeated, starts_with, upper_ascii,
};

verus! {

/// A number in decimal with at least `w` digits.
pub open spec fn zero_padded(n: nat, w: nat) -> Seq<char> {
    let d = nat_text(n);
    if d.len() < w {
        repeated('0', (w - d.len()) as nat) + d
    } else {
        d
    }
}

/// Append a number with at least `w` digits.
pub fn push_padded(out: &mut Vec<char>, n: u64, w: usize)
    ensures
        final(out)@ == old(out)@ + zero_padded(n as nat, w as nat),
{
    let ghost before = out@;
    let d = nat_chars(n);
    if d.len() < w {
        push_repeated(out, '0', w - d.len());
    }
    push_all(out, d.as_slice());
    assert(out@ =~= before + zero_padded(n as nat, w as nat));
}

/// Absolute value.
pub open spec fn abs_of(n: int) -> int {
    if n < 0 {
        -n
    } else {
        n
    }
}

/// Sign, hours and minutes of an offset, separated by `colon` and with at
/// least `w` digits for the hours.
pub open spec fn offset_text(tz: int, colon: Seq<char>, w: nat) -> Seq<char> {
    seq![
        if tz >= 0 {
            '+'
        } else {
            '-'
        },
    ] + zero_padded((abs_of(tz) / 3600) as nat, w) + colon + zero_padded((abs_of(tz) % 3600 / 60) as nat, 2)
}

pub fn push_offset(out: &mut Vec<char>, tz: i32, colon: &str, w: usize)
    requires
        tz > i32::MIN,
    ensures
        final(out)@ == old(out)@ + offset_text(tz as int, colon@, w as nat),
{
    let ghost before = out@;
    out.push(
        if tz >= 0 {
            '+'
        } else {
            '-'
        },
    );
    let a: u64 = if tz < 0 {
        (-tz) as u64
    } else {
        tz as u64
    };
    push_padded(out, a / 3600, w);
    push_text(out, colon);
    push_padded(out, a % 3600 / 60, 2);
    assert(out@ =~= before + offset_text(tz as int, colon@, w as nat));
}

/// A modifier without the trailing `t` that asks for the letter `Z` at offset zero.
pub open spec fn tz_modifier(modifier: Seq<char>) -> Seq<char> {
    if modifier.len() > 0 && modifier.last() == 't' {
        modifier.drop_last()
    } else {
        modifier
    }
}

/// An offset as the component `Z` or `z` with a modifier writes it.
pub open spec fn zone_text(component: char, modifier: Seq<char>, tz: int) -> Result<Seq<char>, Seq<char>> {
    let use_z = modifier.len() > 0 && modifier.last() == 't';
    let m = tz_modifier(modifier);
    let prefix = if component == 'z' {
        "GMT"@
    } else {
        ""@
    };
    if tz == 0 && use_z {
        Ok(prefix + "Z"@)
    } else if m == "010101"@ || m == "01:01:01"@ {
        Err("D3134"@)
    } else if m == "0"@ && abs_of(tz) % 3600 / 60 == 0 {
        Ok(
            prefix + seq![
                if tz >= 0 {
                    '+'
                } else {
                    '-'
                },
            ] + nat_text((abs_of(tz) / 3600) as nat),
        )
    } else if m == "0"@ {
        Ok(prefix + offset_text(tz, ":"@, 1))
    } else if m == "0101"@ {
        Ok(prefix + offset_text(tz, ""@, 2))
    } else {
        Ok(prefix + offset_text(tz, ":"@, 2))
    }
}

/// Characters, or the code of an error, as contracts speak of them.
pub open spec fn out_chars(r: Result<Vec<char>, JsonataError>) -> Result<Seq<char>, Seq<char>> {
    match r {
        Ok(t) => Ok(t@),
        Err(e) => Err(e.code@),
    }
}

proof fn lemma_zone_literals()
    ensures
        "010101"@ != "0"@,
        "01:01:01"@ != "0"@,
        "010101"@ != "0101"@,
        "01:01:01"@ != "0101"@,
        "0101"@ != "0"@,
{
    reveal_strlit("010101");
    reveal_strlit("01:01:01");
    reveal_strlit("0101");
    reveal_strlit("0");
    assert("010101"@.len() == 6);
    assert("01:01:01"@.len() == 8);
    assert("0101"@.len() == 4);
    assert("0"@.len() == 1);
}

/// Write an offset for the component `Z` or `z`.
pub fn format_timezone(component: char, modifier: &[char], tz: i32) -> (r: Result<Vec<char>, JsonataError>)
    requires
        tz > i32::MIN,
    ensures
        out_chars(r) == zone_text(component, modifier@, tz as int),
{
    let use_z: bool = modifier.len() > 0 && modifier[modifier.len() - 1] == 't';
    let m = if use_z {
        part(modifier, 0, modifier.len() - 1)
    } else {
        part(modifier, 0, modifier.len())
    };
    assert(m@ =~= tz_modifier(modifier@));
    let mut out: Vec<char> = Vec::new();
    if component == 'z' {
        push_text(&mut out, "GMT");
    } else {
        push_text(&mut out, "");
    }
    let ghost prefix = if component == 'z' {
        "GMT"@
    } else {
        ""@
    };
    assert(out@ =~= prefix);
    if tz == 0 && use_z {
        push_text(&mut out, "Z");
        return Ok(out);
    }
    proof {
        lemma_zone_literals();
    }
    if is_text(m.as_slice(), "010101") || is_text(m.as_slice(), "01:01:01") {
        let mut c: Vec<char> = Vec::new();
        c.push(component);
        push_all(&mut c, modifier);
        return Err(JsonataError::about("D3134", "invalid picture component: [", c.as_slice(), "]"));
    }
    if is_text(m.as_slice(), "0") {
        let a: u64 = if tz < 0 {
            (-tz) as u64
        } else {
            tz as u64
        };
        if a % 3600 / 60 == 0 {
            out.push(
                if tz >= 0 {
                    '+'
                } else {
                    '-'
                },
            );
            let d = nat_chars(a / 3600);
            push_all(&mut out, d.as_slice());
            assert(out@ =~= zone_text(component, modifier@, tz as int)->Ok_0);
        } else {
            push_offset(&mut out, tz, ":", 1);
        }
        return Ok(out);
    }
    if is_text(m.as_slice(), "0101") {
        push_offset(&mut out, tz, "", 2);
        return Ok(out);
    }
    push_offset(&mut out, tz, ":", 2);
    Ok(out)
}

// ── Reading an offset off the front of a text ────────────────────────────────

/// Up to two decimal digits at `i`: where they end.
pub open spec fn two_digits(s: Seq<char>, i: int) -> int {
    if 0 <= i < s.len() && is_digit(s[i]) {
        if i + 1 < s.len() && is_digit(s[i + 1]) {
            i + 2
        } else {
            i + 1
        }
    } else {
        i
    }
}

fn two_digits_end(s: &[char], i: usize) -> (r: usize)
    requires
        i <= s@.len(),
    ensures
        r == two_digits(s@, i as int),
        i <= r <= s@.len(),
        r <= i + 2,
        all_digits(s@.subrange(i as int, r as int)),
{
    if i < s.len() && digit(s[i]) {
        if i + 1 < s.len() && digit(s[i + 1]) {
            i + 2
        } else {
            i + 1
        }
    } else {
        i
    }
}

/// The number that up to two digits stand for.
fn short_number(s: &[char], i: usize, j: usize) -> (r: i32)
    requires
        i <= j <= s@.len(),
        j <= i + 2,
        all_digits(s@.subrange(i as int, j as int)),
    ensures
        r == number_of(s@.subrange(i as int, j as int)),
        0 <= r <= 99,
{
    let ghost d = s@.subrange(i as int, j as int);
    proof {
        reveal_with_fuel(number_of, 4);
    }
    if i == j {
        return 0;
    }
    assert(is_digit(d[0]));
    let a: i32 = (s[i] as u32 - 48) as i32;
    if j == i + 1 {
        assert(d.drop_last() =~= Seq::empty());
        return a;
    }
    assert(is_digit(d[1]));
    let b: i32 = (s[i + 1] as u32 - 48) as i32;
    assert(d.drop_last().drop_last() =~= Seq::empty());
    assert(d.drop_last().last() == d[0]);
    a * 10 + b
}

/// An offset at the front of a text, in seconds, and how many characters it
/// takes; nothing taken where there is none. `GMT` may stand before it.
pub open spec fn zone_at(s: Seq<char>) -> (int, int)
    decreases s.len(),
{
    if s.len() == 0 {
        (0, 0)
    } else if occurs_at(s, "GMT"@, 0) && "GMT"@.len() == 3 {
        let (offset, n) = zone_at(s.skip(3));
        (offset, 3 + n)
    } else if s[0] == 'Z' {
        (0, 1)
    } else if s[0] != '+' && s[0] != '-' {
        (0, 0)
    } else {
        let h = two_digits(s, 1);
        if h == 1 {
            (0, 0)
        } else {
            let c = if h < s.len() && s[h] == ':' {
                h + 1
            } else {
                h
            };
            let m = two_digits(s, c);
            let secs = number_of(s.subrange(1, h)) * 3600 + number_of(s.subrange(c, m)) * 60;
            (
                if s[0] == '-' {
                    -secs
                } else {
                    secs as int
                },
                m,
            )
        }
    }
}

/// Read an offset off the front of a text.
pub fn parse_tz_from_input(s: &[char]) -> (r: (i32, usize))
    ensures
        (r.0 as int, r.1 as int) == zone_at(s@),
        r.1 <= s@.len(),
        -400_000 <= r.0 <= 400_000,
    decreases s@.len(),
{
    if s.len() == 0 {
        return (0, 0);
    }
    proof {
        reveal_strlit("GMT");
        assert("GMT"@.len() == 3);
    }
    if starts_with(s, "GMT") {
        let rest = part(s, 3, s.len());
        assert(rest@ =~= s@.skip(3));
        let (offset, n) = parse_tz_from_input(rest.as_slice());
        return (offset, 3 + n);
    }
    let first: char = s[0];
    if first == 'Z' {
        return (0, 1);
    }
    if first != '+' && first != '-' {
        return (0, 0);
    }
    let h: usize = two_digits_end(s, 1);
    if h == 1 {
        return (0, 0);
    }
    let hours: i32 = short_number(s, 1, h);
    let c: usize = if h < s.len() && s[h] == ':' {
        h + 1
    } else {
        h
    };
    let m: usize = two_digits_end(s, c);
    let mins: i32 = short_number(s, c, m);
    let secs: i32 = hours * 3600 + mins * 60;
    (
        if first == '-' {
            -secs
        } else {
            secs
        },
        m,
    )
}

// ── The time zone argument ───────────────────────────────────────────────────

/// Whether two texts are equal but for the case of ASCII letters.
pub open spec fn same_letters(a: Seq<char>, b: Seq<char>) -> bool {
    a.len() == b.len() && forall|i: int| 0 <= i < a.len() ==> ascii_upper(#[trigger] a[i]) == ascii_upper(b[i])
}

fn ignore_case(a: &[char], t: &str) -> (r: bool)
    ensures
        r == same_letters(a@, t@),
{
    let b = chars_of(t);
    if a.len() != b.len() {
        return false;
    }
    let mut i: usize = 0;
    while i < a.len()
        invariant
            i <= a.len(),
            a@.len() == b@.len(),
            b@ == t@,
            forall|k: int| 0 <= k < i ==> ascii_upper(#[trigger] a@[k]) == ascii_upper(b@[k]),
        decreases a.len() - i,
    {
        if upper_ascii(a[i]) != upper_ascii(b[i]) {
            assert(ascii_upper(a@[i as int]) != ascii_upper(b@[i as int]));
            return false;
        }
        i = i + 1;
    }
    true
}

/// A text without its colons.
pub open spec fn without_colons(s: Seq<char>) -> Seq<char>
    decreases s.len(),
{
    if s.len() == 0 {
        Seq::empty()
    } else if s.last() == ':' {
        without_colons(s.drop_last())
    } else {
        without_colons(s.drop_last()).push(s.last())
    }
}

fn drop_colons(s: &[char]) -> (r: Vec<char>)
    ensures
        r@ == without_colons(s@),
{
    let mut r: Vec<char> = Vec::new();
    let mut i: usize = 0;
    assert(s@.take(0) =~= Seq::empty());
    while i < s.len()
        invariant
            i <= s.len(),
            r@ == without_colons(s@.take(i as int)),
        decreases s.len() - i,
    {
        assert(s@.take(i + 1).drop_last() =~= s@.take(i as int));
        if s[i] != ':' {
            r.push(s[i]);
        }
        i = i + 1;
    }
    assert(s@.take(i as int) =~= s@);
    r
}

/// Whether all characters are below 128.
pub open spec fn ascii_only(s: Seq<char>) -> bool {
    forall|i: int| 0 <= i < s.len() ==> (#[trigger] s[i]) <= '\u{7f}'
}

pub fn is_ascii(s: &[char]) -> (r: bool)
    ensures
        r == ascii_only(s@),
{
    let mut i: usize = 0;
    while i < s.len()
        invariant
            i <= s.len(),
            forall|k: int| 0 <= k < i ==> (#[trigger] s@[k]) <= '\u{7f}',
        decreases s.len() - i,
    {
        if s[i] > '\u{7f}' {
            return false;
        }
        i = i + 1;
    }
    true
}

/// A numeric offset: a sign or none, then hours and minutes of two characters
/// each, with colons anywhere among them.
pub open spec fn numeric_zone(s: Seq<char>) -> Option<int> {
    let signed = s.len() > 0 && (s[0] == '+' || s[0] == '-');
    let rest = without_colons(
        if signed {
            s.skip(1)
        } else {
            s
        },
    );
    if s.len() == 0 || (!signed && !digits_and_colons(s)) || rest.len() != 4 || !ascii_only(rest) {
        None
    } else {
        match (
            parse_spec(rest.take(2), i32::MIN as int, i32::MAX as int),
            parse_spec(rest.skip(2), i32::MIN as int, i32::MAX as int),
        ) {
            (Some(h), Some(m)) => Some(
                if s[0] == '-' {
                    -(h * 3600 + m * 60)
                } else {
                    h * 3600 + m * 60
                },
            ),
            _ => None,
        }
    }
}

pub open spec fn digits_and_colons(s: Seq<char>) -> bool {
    forall|i: int| 0 <= i < s.len() ==> is_digit(#[trigger] s[i]) || s[i] == ':'
}

/// The offset that a time zone argument stands for, in seconds.
pub open spec fn zone_offset(s: Seq<char>) -> Option<int> {
    if same_letters(s, "UTC"@) || same_letters(s, "GMT"@) || s == "Z"@ {
        Some(0)
    } else {
        numeric_zone(s)
    }
}

proof fn lemma_two_char_number(s: Seq<char>)
    requires
        s.len() == 2,
        parse_spec(s, i32::MIN as int, i32::MAX as int) is Some,
    ensures
        -9 <= parse_spec(s, i32::MIN as int, i32::MAX as int)->0 <= 99,
{
    reveal_with_fuel(number_of, 4);
    let signed = s[0] == '+' || s[0] == '-';
    if signed {
        let d = s.skip(1);
        assert(is_digit(d[0]));
        assert(d.drop_last() =~= Seq::empty());
    } else {
        assert(is_digit(s[0]) && is_digit(s[1]));
        assert(s.drop_last().drop_last() =~= Seq::empty());
        assert(s.drop_last().last() == s[0]);
    }
}

/// Read a numeric offset.
pub fn parse_numeric_tz(s: &[char]) -> (r: Option<i32>)
    ensures
        match r {
            Some(v) => numeric_zone(s@) == Some(v as int) && -400_000 <= v <= 400_000,
            None => numeric_zone(s@) is None,
        },
{
    if s.len() == 0 {
        return None;
    }
    let signed: bool = s[0] == '+' || s[0] == '-';
    if !signed {
        let mut i: usize = 0;
        while i < s.len()
            invariant
                i <= s.len(),
                0 < s@.len(),
                !(s@[0] == '+' || s@[0] == '-'),
                forall|k: int| 0 <= k < i ==> is_digit(#[trigger] s@[k]) || s@[k] == ':',
            decreases s.len() - i,
        {
            if !digit(s[i]) && s[i] != ':' {
                assert(!digits_and_colons(s@));
                return None;
            }
            i = i + 1;
        }
    }
    let body = if signed {
        part(s, 1, s.len())
    } else {
        part(s, 0, s.len())
    };
    assert(body@ =~= (if signed {
        s@.skip(1)
    } else {
        s@
    }));
    let rest = drop_colons(body.as_slice());
    if rest.len() != 4 || !is_ascii(rest.as_slice()) {
        return None;
    }
    let a = part(rest.as_slice(), 0, 2);
    let b = part(rest.as_slice(), 2, 4);
    assert(a@ =~= rest@.take(2));
    assert(b@ =~= rest@.skip(2));
    match (
        parse_int(a.as_slice(), -0x8000_0000, 0x7fff_ffff),
        parse_int(b.as_slice(), -0x8000_0000, 0x7fff_ffff),
    ) {
        (Some(h), Some(m)) => {
            proof {
                lemma_two_char_number(rest@.take(2));
                lemma_two_char_number(rest@.skip(2));
            }
            let secs: i32 = h as i32 * 3600 + m as i32 * 60;
            Some(
                if s[0] == '-' {
                    -secs
                } else {
                    secs
                },
            )
        },
        _ => None,
    }
}

/// Read a time zone argument: a numeric offset, or one of `UTC`, `GMT` and `Z`.
pub fn parse_tz(s: &[char]) -> (r: Result<i32, JsonataError>)
    ensures
        match r {
            Ok(v) => zone_offset(s@) == Some(v as int) && -400_000 <= v <= 400_000,
            Err(e) => zone_offset(s@) is None && e.code@ == "D3137"@,
        },
{
    if ignore_case(s, "UTC") || ignore_case(s, "GMT") || is_text(s, "Z") {
        return Ok(0);
    }
    match parse_numeric_tz(s) {
        Some(v) => Ok(v),
        None => Err(
            JsonataError::about(
                "D3137",
                "unknown timezone \"",
                s,
                "\": expected a numeric offset such as \"+0530\" or \"-05:00\", or \"UTC\"/\"GMT\"/\"Z\" (there is no IANA timezone database)",
            ),
        ),
    }
}

} // verus!
