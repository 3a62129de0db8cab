//! Values as text: strings as they are, everything else as JSON.
use vstd::prelude::*;

use crate::decimal::{number_chars, number_text};
use crate::error::{out, JsonataError, JsonataResult};
use crate::text::{chars_of, push_all, push_text, repeated, text_of};
use crate::value::{pairs, vals, Entry, Val, Value};

verus! {

/// The hexadecimal digit of a number below sixteen.
pub open spec fn hex_digit(d: int) -> char {
    if d < 10 {
        ('0' as int + d) as char
    } else {
        ('a' as int + d - 10) as char
    }
}

/// A character within a JSON string.
pub open spec fn escaped(c: char) -> Seq<char> {
    if c == '"' {
        seq!['\\', '"']
    } else if c == '\\' {
        seq!['\\', '\\']
    } else if c == '\n' {
        seq!['\\', 'n']
    } else if c == '\r' {
        seq!['\\', 'r']
    } else if c == '\t' {
        seq!['\\', 't']
    } else if c == '\u{8}' {
        seq!['\\', 'b']
    } else if c == '\u{c}' {
        seq!['\\', 'f']
    } else if c <= '\u{1f}' {
        seq!['\\', 'u', '0', '0', hex_digit(c as int / 16), hex_digit(c as int % 16)]
    } else {
        seq![c]
    }
}

pub open spec fn escaped_all(s: Seq<char>) -> Seq<char>
    decreases s.len(),
{
    if s.len() == 0 {
        Seq::empty()
    } else {
        escaped_all(s.drop_last()) + escaped(s.last())
    }
}

/// A JSON string.
pub open spec fn quoted(s: Seq<char>) -> Seq<char> {
    seq!['"'] + escaped_all(s) + seq!['"']
}

/// What separates the items of a list: where items stand on lines of their
/// own, a line break and the indentation of the level.
pub open spec fn line(pretty: bool, depth: nat) -> Seq<char> {
    if pretty {
        seq!['\n'] + repeated(' ', 2 * depth)
    } else {
        Seq::empty()
    }
}

/// A value as JSON. A number that is not finite has none.
pub open spec fn json(v: Val, pretty: bool, depth: nat) -> Result<Seq<char>, Seq<char>>
    decreases v,
{
    match v {
        Val::Bool(b) => Ok(
            if b {
                "true"@
            } else {
                "false"@
            },
        ),
        Val::Number(n) => if n.finite() {
            Ok(number_text(n))
        } else {
            Err("D1001"@)
        },
        Val::String(s) => Ok(quoted(s)),
        Val::Function(_) => Ok(seq!['"', '"']),
        Val::Array(a) => json_list(a, pretty, depth),
        Val::Sequence(a) => json_list(a, pretty, depth),
        Val::Object(o) => match json_members(o, pretty, depth + 1) {
            Ok(t) => Ok(
                if t.len() == 0 {
                    seq!['{', '}']
                } else {
                    seq!['{'] + t + line(pretty, depth) + seq!['}']
                },
            ),
            Err(e) => Err(e),
        },
        _ => Ok("null"@),
    }
}

pub open spec fn json_list(a: Seq<Val>, pretty: bool, depth: nat) -> Result<Seq<char>, Seq<char>>
    decreases a, 1nat,
{
    match json_items(a, pretty, depth + 1) {
        Ok(t) => Ok(
            if a.len() == 0 {
                seq!['[', ']']
            } else {
                seq!['['] + t + line(pretty, depth) + seq![']']
            },
        ),
        Err(e) => Err(e),
    }
}

/// The items of a list, each after its separator.
pub open spec fn json_items(a: Seq<Val>, pretty: bool, depth: nat) -> Result<Seq<char>, Seq<char>>
    decreases a, 0nat,
{
    if a.len() == 0 {
        Ok(Seq::empty())
    } else {
        match json_items(a.drop_last(), pretty, depth) {
            Err(e) => Err(e),
            Ok(before) => match json(a.last(), pretty, depth) {
                Err(e) => Err(e),
                Ok(t) => Ok(
                    before + (if a.len() == 1 {
                        Seq::empty()
                    } else {
                        seq![',']
                    }) + line(pretty, depth) + t,
                ),
            },
        }
    }
}

/// What stands before the value of a member: separator, key and colon.
pub open spec fn member_start(first: bool, key: Seq<char>, pretty: bool, depth: nat) -> Seq<char> {
    (if first {
        Seq::empty()
    } else {
        seq![',']
    }) + line(pretty, depth) + quoted(key) + (if pretty {
        seq![':', ' ']
    } else {
        seq![':']
    })
}

/// The members of an object, each after its separator. Absent ones are left out.
pub open spec fn json_members(o: Seq<(Seq<char>, Val)>, pretty: bool, depth: nat) -> Result<
    Seq<char>,
    Seq<char>,
>
    decreases o,
{
    if o.len() == 0 {
        Ok(Seq::empty())
    } else {
        match json_members(o.drop_last(), pretty, depth) {
            Err(e) => Err(e),
            Ok(before) => if o.last().1 is Undefined {
                Ok(before)
            } else {
                match json(o.last().1, pretty, depth) {
                    Err(e) => Err(e),
                    Ok(t) => Ok(before + member_start(before.len() == 0, o.last().0, pretty, depth) + t),
                }
            },
        }
    }
}

/// A value as text.
pub open spec fn stringified(v: Val, pretty: bool) -> Result<Seq<char>, Seq<char>> {
    match v {
        Val::String(s) => Ok(s),
        Val::Number(n) => if n.finite() {
            Ok(number_text(n))
        } else {
            Err("D3001"@)
        },
        Val::Undefined => Ok(Seq::empty()),
        Val::Function(_) => Ok(Seq::empty()),
        _ => json(v, pretty, 0),
    }
}

/// What appending text gives: the text so far and the text of the value.
pub open spec fn appended(
    before: Seq<char>,
    after: Seq<char>,
    r: Result<(), JsonataError>,
    t: Result<Seq<char>, Seq<char>>,
) -> bool {
    match (r, t) {
        (Ok(_), Ok(t)) => after == before + t,
        (Err(e), Err(c)) => e.code@ == c,
        _ => false,
    }
}

fn push_escaped(buf: &mut Vec<char>, c: char)
    ensures
        final(buf)@ == old(buf)@ + escaped(c),
{
    let ghost done = buf@;
    if c == '"' {
        buf.push('\\');
        buf.push('"');
    } else if c == '\\' {
        buf.push('\\');
        buf.push('\\');
    } else if c == '\n' {
        buf.push('\\');
        buf.push('n');
    } else if c == '\r' {
        buf.push('\\');
        buf.push('r');
    } else if c == '\t' {
        buf.push('\\');
        buf.push('t');
    } else if c == '\u{8}' {
        buf.push('\\');
        buf.push('b');
    } else if c == '\u{c}' {
        buf.push('\\');
        buf.push('f');
    } else if c <= '\u{1f}' {
        buf.push('\\');
        buf.push('u');
        buf.push('0');
        buf.push('0');
        buf.push(hex_char((c as u32 / 16) as u8));
        buf.push(hex_char((c as u32 % 16) as u8));
    } else {
        buf.push(c);
    }
    assert(buf@ =~= done + escaped(c));
}

fn push_quoted(buf: &mut Vec<char>, s: &[char])
    ensures
        final(buf)@ == old(buf)@ + quoted(s@),
{
    let ghost before = buf@;
    buf.push('"');
    let mut i: usize = 0;
    assert(s@.take(0) =~= Seq::empty());
    assert(buf@ =~= before + seq!['"'] + escaped_all(s@.take(0)));
    while i < s.len()
        invariant
            i <= s.len(),
            buf@ == before + seq!['"'] + escaped_all(s@.take(i as int)),
        decreases s.len() - i,
    {
        let c: char = s[i];
        let ghost done = buf@;
        push_escaped(buf, c);
        proof {
            assert(s@.take(i + 1).drop_last() =~= s@.take(i as int));
            assert(s@.take(i + 1).last() == c);
            assert(done + escaped(c) =~= before + seq!['"'] + (escaped_all(s@.take(i as int)) + escaped(c)));
        }
        i = i + 1;
    }
    buf.push('"');
    assert(s@.take(i as int) =~= s@);
    assert(buf@ =~= before + quoted(s@));
}

fn hex_char(d: u8) -> (r: char)
    requires
        d < 16,
    ensures
        r == hex_digit(d as int),
{
    if d < 10 {
        (48u8 + d) as char
    } else {
        (87u8 + d) as char
    }
}

fn push_line(buf: &mut Vec<char>, pretty: bool, indent: &Vec<char>)
    requires
        is_indent(indent@),
    ensures
        final(buf)@ == old(buf)@ + line(pretty, level(indent@)),
{
    let ghost before = buf@;
    if pretty {
        buf.push('\n');
        push_all(buf, indent.as_slice());
    }
    assert(buf@ =~= before + line(pretty, level(indent@)));
}

/// The level that an indentation is for: two spaces each.
spec fn level(indent: Seq<char>) -> nat {
    indent.len() / 2
}

/// Whether an indentation is one.
spec fn is_indent(indent: Seq<char>) -> bool {
    indent == repeated(' ', 2 * level(indent))
}

/// The indentation of the next level.
fn deeper(indent: &Vec<char>) -> (r: Vec<char>)
    requires
        is_indent(indent@),
    ensures
        is_indent(r@),
        level(r@) == level(indent@) + 1,
{
    let mut r: Vec<char> = Vec::new();
    push_all(&mut r, indent.as_slice());
    r.push(' ');
    r.push(' ');
    assert(r@ =~= repeated(' ', 2 * (level(indent@) + 1)));
    r
}

proof fn lemma_items_error(a: Seq<Val>, i: int, pretty: bool, depth: nat)
    requires
        0 <= i <= a.len(),
        json_items(a.take(i), pretty, depth) is Err,
    ensures
        json_items(a, pretty, depth) == json_items(a.take(i), pretty, depth),
    decreases a.len() - i,
{
    if i == a.len() {
        assert(a.take(i) =~= a);
    } else {
        assert(a.take(i + 1).drop_last() =~= a.take(i));
        lemma_items_error(a, i + 1, pretty, depth);
    }
}

proof fn lemma_members_error(o: Seq<(Seq<char>, Val)>, i: int, pretty: bool, depth: nat)
    requires
        0 <= i <= o.len(),
        json_members(o.take(i), pretty, depth) is Err,
    ensures
        json_members(o, pretty, depth) == json_members(o.take(i), pretty, depth),
    decreases o.len() - i,
{
    if i == o.len() {
        assert(o.take(i) =~= o);
    } else {
        assert(o.take(i + 1).drop_last() =~= o.take(i));
        lemma_members_error(o, i + 1, pretty, depth);
    }
}

fn push_items(buf: &mut Vec<char>, a: &Vec<Value>, pretty: bool, indent: &Vec<char>) -> (r: Result<(), JsonataError>)
    requires
        is_indent(indent@),
    ensures
        appended(old(buf)@, final(buf)@, r, json_items(vals(a@), pretty, level(indent@))),
    decreases a, 0nat,
{
    let ghost before = buf@;
    let ghost v = vals(a@);
    let mut i: usize = 0;
    proof {
        assert(v.take(0) =~= Seq::empty());
        assert(buf@ =~= before + Seq::<char>::empty());
    }
    while i < a.len()
        invariant
            i <= a.len(),
            v == vals(a@),
            is_indent(indent@),
            json_items(v.take(i as int), pretty, level(indent@)) is Ok,
            buf@ == before + json_items(v.take(i as int), pretty, level(indent@))->Ok_0,
        decreases a.len() - i,
    {
        let ghost done = json_items(v.take(i as int), pretty, level(indent@))->Ok_0;
        if i > 0 {
            buf.push(',');
        }
        push_line(buf, pretty, indent);
        let ghost mid = buf@;
        proof {
            assert(v.take(i + 1).drop_last() =~= v.take(i as int));
            assert(v.take(i + 1).last() == a@[i as int]@);
        }
        let r = push_json(buf, &a[i], pretty, indent);
        match r {
            Ok(_) => {
                assert(buf@ =~= before + json_items(v.take(i + 1), pretty, level(indent@))->Ok_0);
            },
            Err(e) => {
                proof {
                    lemma_items_error(v, i + 1, pretty, level(indent@));
                }
                return Err(e);
            },
        }
        i = i + 1;
    }
    assert(v.take(i as int) =~= v);
    Ok(())
}

fn push_list(buf: &mut Vec<char>, a: &Vec<Value>, pretty: bool, indent: &Vec<char>) -> (r: Result<(), JsonataError>)
    requires
        is_indent(indent@),
    ensures
        appended(old(buf)@, final(buf)@, r, json_list(vals(a@), pretty, level(indent@))),
    decreases a, 1nat,
{
    let ghost before = buf@;
    buf.push('[');
    let ghost open = buf@;
    let inner = deeper(indent);
    match push_items(buf, a, pretty, &inner) {
        Ok(_) => {},
        Err(e) => {
            return Err(e);
        },
    }
    if a.len() > 0 {
        push_line(buf, pretty, indent);
    }
    buf.push(']');
    assert(buf@ =~= before + json_list(vals(a@), pretty, level(indent@))->Ok_0);
    Ok(())
}

proof fn lemma_member_start(first: bool, key: Seq<char>, pretty: bool, depth: nat)
    ensures
        member_start(first, key, pretty, depth).len() > 0,
{
}

fn push_member_start(buf: &mut Vec<char>, first: bool, key: &str, pretty: bool, indent: &Vec<char>)
    requires
        is_indent(indent@),
    ensures
        final(buf)@ == old(buf)@ + member_start(first, key@, pretty, level(indent@)),
{
    let ghost before = buf@;
    if !first {
        buf.push(',');
    }
    push_line(buf, pretty, indent);
    let k = chars_of(key);
    push_quoted(buf, k.as_slice());
    buf.push(':');
    if pretty {
        buf.push(' ');
    }
    assert(buf@ =~= before + member_start(first, key@, pretty, level(indent@)));
}

fn push_members(buf: &mut Vec<char>, o: &Vec<Entry>, pretty: bool, indent: &Vec<char>) -> (r: Result<
    bool,
    JsonataError,
>)
    requires
        is_indent(indent@),
    ensures
        match (r, json_members(pairs(o@), pretty, level(indent@))) {
            (Ok(any), Ok(t)) => final(buf)@ == old(buf)@ + t && any == (t.len() > 0),
            (Err(e), Err(c)) => e.code@ == c,
            _ => false,
        },
    decreases o, 0nat,
{
    let ghost before = buf@;
    let ghost v = pairs(o@);
    let mut any: bool = false;
    let mut i: usize = 0;
    proof {
        assert(v.take(0) =~= Seq::empty());
        assert(buf@ =~= before + Seq::<char>::empty());
    }
    while i < o.len()
        invariant
            i <= o.len(),
            v == pairs(o@),
            is_indent(indent@),
            json_members(v.take(i as int), pretty, level(indent@)) is Ok,
            buf@ == before + json_members(v.take(i as int), pretty, level(indent@))->Ok_0,
            any == (json_members(v.take(i as int), pretty, level(indent@))->Ok_0.len() > 0),
        decreases o.len() - i,
    {
        let ghost done = json_members(v.take(i as int), pretty, level(indent@))->Ok_0;
        proof {
            assert(v.take(i + 1).drop_last() =~= v.take(i as int));
            assert(v.take(i + 1).last() == (o@[i as int].key@, o@[i as int].value@));
            assert(decreases_to!(o => o@[i as int].value));
        }
        if !o[i].value.is_undefined() {
            push_member_start(buf, !any, o[i].key.as_str(), pretty, indent);
            let ghost mid = buf@;
            let r = push_json(buf, &o[i].value, pretty, indent);
            match r {
                Ok(_) => {
                    proof {
                        let start = member_start(!any, o@[i as int].key@, pretty, level(indent@));
                        let t = json(o@[i as int].value@, pretty, level(indent@))->Ok_0;
                        assert((before + done + start) + t =~= before + (done + start + t));
                        lemma_member_start(!any, o@[i as int].key@, pretty, level(indent@));
                    }
                    any = true;
                },
                Err(e) => {
                    proof {
                        lemma_members_error(v, i + 1, pretty, level(indent@));
                    }
                    return Err(e);
                },
            }
        }
        i = i + 1;
    }
    assert(v.take(i as int) =~= v);
    Ok(any)
}

fn push_json(buf: &mut Vec<char>, v: &Value, pretty: bool, indent: &Vec<char>) -> (r: Result<(), JsonataError>)
    requires
        is_indent(indent@),
    ensures
        appended(old(buf)@, final(buf)@, r, json(v@, pretty, level(indent@))),
    decreases v, 2nat,
{
    let ghost before = buf@;
    match v {
        Value::Bool(b) => {
            if *b {
                push_text(buf, "true");
            } else {
                push_text(buf, "false");
            }
            Ok(())
        },
        Value::Number(n) => {
            if !n.is_finite() {
                return Err(JsonataError::new("D1001", "number out of range"));
            }
            let t = number_chars(n);
            push_all(buf, t.as_slice());
            Ok(())
        },
        Value::String(s) => {
            let t = chars_of(s.as_str());
            push_quoted(buf, t.as_slice());
            Ok(())
        },
        Value::Function(_) => {
            buf.push('"');
            buf.push('"');
            assert(buf@ =~= before + seq!['"', '"']);
            Ok(())
        },
        Value::Array(a) => push_list(buf, a, pretty, indent),
        Value::Sequence(s) => push_list(buf, &s.values, pretty, indent),
        Value::Object(o) => {
            buf.push('{');
            let inner = deeper(indent);
            match push_members(buf, &o.entries, pretty, &inner) {
                Ok(any) => {
                    if any {
                        push_line(buf, pretty, indent);
                    }
                    buf.push('}');
                    assert(buf@ =~= before + json(v@, pretty, level(indent@))->Ok_0);
                    Ok(())
                },
                Err(e) => Err(e),
            }
        },
        _ => {
            push_text(buf, "null");
            Ok(())
        },
    }
}

impl Value {
    /// Append the value as text.
    pub fn stringify_into(&self, buf: &mut Vec<char>, pretty: bool) -> (r: Result<(), JsonataError>)
        ensures
            appended(old(buf)@, final(buf)@, r, stringified(self@, pretty)),
    {
        let ghost before = buf@;
        match self {
            Value::String(s) => {
                push_text(buf, s.as_str());
                Ok(())
            },
            Value::Number(n) => {
                if !n.is_finite() {
                    return Err(JsonataError::new("D3001", "attempting to stringify a number out of range"));
                }
                let t = number_chars(n);
                push_all(buf, t.as_slice());
                Ok(())
            },
            Value::Undefined => {
                assert(buf@ =~= before + Seq::<char>::empty());
                Ok(())
            },
            Value::Function(_) => {
                assert(buf@ =~= before + Seq::<char>::empty());
                Ok(())
            },
            _ => {
                let indent: Vec<char> = Vec::new();
                assert(indent@ =~= repeated(' ', 0));
                push_json(buf, self, pretty, &indent)
            },
        }
    }

    /// The value as text.
    pub fn stringify(&self, pretty: bool) -> (r: JsonataResult)
        ensures
            out(r) == (match stringified(self@, pretty) {
                Ok(t) => Ok::<Val, Seq<char>>(Val::String(t)),
                Err(c) => Err(c),
            }),
    {
        let mut buf: Vec<char> = Vec::new();
        match self.stringify_into(&mut buf, pretty) {
            Ok(_) => {
                assert(buf@ =~= stringified(self@, pretty)->Ok_0);
                Ok(Value::String(text_of(buf.as_slice())))
            },
            Err(e) => Err(e),
        }
    }
}

} // verus!
