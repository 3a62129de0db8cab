//! Regular expressions: `$match`, `$replace`, and what `$contains` and
//! `$split` need of them.
use vstd::prelude::*;

use super::args::arg;
use super::host::{ask_call, open_to_all, Answer, Ask, Course, Plan};
use crate::error::{fail, out, JsonataError, JsonataResult};
use crate::number::Number;
use crate::text::{
    as_limit, byte_len, chars_of, digit, digit_run, digits_end, find, find_char, is_digit, joined, lemma_joined_first,
    number_of, parse_int, parse_spec, part, push_all, push_text, replace_text, replaced, text_of, texts_of, utf8_width,
    width_of_char,
};
use crate::value::{member, vals, Entry, Fun, FunctionValue, ObjectMap, Sequence, Val, Value};

verus! {

// ── The engine ───────────────────────────────────────────────────────────────

/// Whether `regex_lite::Regex::new` accepts a pattern.
pub uninterp spec fn regex_valid(pattern: Seq<char>) -> bool;

/// What `regex_lite::Regex::captures_iter` finds with a pattern in a text: for
/// each match where its groups begin and end, in bytes of UTF-8, the whole
/// match first.
pub uninterp spec fn regex_captures(pattern: Seq<char>, s: Seq<char>) -> Seq<Seq<Option<(usize, usize)>>>;

/// Whether matches are in order: each has a whole, which ends no sooner than it
/// begins and begins no sooner than the one before it ends.
pub open spec fn in_order(spans: Seq<Seq<Option<(usize, usize)>>>) -> bool {
    &&& forall|k: int|
        0 <= k < spans.len() ==> (#[trigger] spans[k]).len() > 0 && spans[k][0] is Some && (spans[k][0]->0).0 <= (
        spans[k][0]->0).1
    &&& forall|j: int, k: int|
        0 <= j < k < spans.len() ==> ((#[trigger] spans[j])[0]->0).1 <= ((#[trigger] spans[k])[0]->0).0
    &&& forall|k: int, g: int|
        0 <= k < spans.len() && 0 <= g < spans[k].len() && (#[trigger] spans[k][g]) is Some ==> (spans[k][g]->0).0 <= (
        spans[k][g]->0).1
}

pub open spec fn spans_of(v: Seq<Vec<Option<(usize, usize)>>>) -> Seq<Seq<Option<(usize, usize)>>> {
    v.map_values(|g: Vec<Option<(usize, usize)>>| g@)
}

/// `regex_lite::Regex::new`: whether a pattern is one.
#[verifier::external_body]
fn engine_accepts(pattern: &str) -> (r: bool)
    ensures
        r == regex_valid(pattern@),
{
    regex_lite::Regex::new(pattern).is_ok()
}

/// `regex_lite::Regex::captures_iter`: all the matches of a pattern in a text,
/// from left to right and without overlap, each with its groups.
#[verifier::external_body]
fn engine_captures(pattern: &str, s: &str) -> (r: Vec<Vec<Option<(usize, usize)>>>)
    requires
        regex_valid(pattern@),
    ensures
        spans_of(r@) == regex_captures(pattern@, s@),
        in_order(spans_of(r@)),
{
    let re = regex_lite::Regex::new(pattern).unwrap();
    re.captures_iter(s)
        .map(|c| (0..c.len()).map(|i| c.get(i).map(|m| (m.start(), m.end()))).collect())
        .collect()
}

/// `regex_lite::Regex::is_match`: whether a pattern matches anywhere in a text.
#[verifier::external_body]
fn engine_is_match(pattern: &str, s: &str) -> (r: bool)
    requires
        regex_valid(pattern@),
    ensures
        r == (regex_captures(pattern@, s@).len() > 0),
{
    regex_lite::Regex::new(pattern).unwrap().is_match(s)
}

/// `regex_lite::Regex::split`: the pieces of a text between the matches of a
/// pattern.
#[verifier::external_body]
fn engine_split(pattern: &str, s: &str) -> (r: Vec<String>)
    requires
        regex_valid(pattern@),
    ensures
        r@.map_values(|p: String| p@) == pieces(s@, regex_captures(pattern@, s@), 0, 0),
{
    regex_lite::Regex::new(pattern).unwrap().split(s).map(|p| p.to_string()).collect()
}

/// Whether a character has a meaning of its own in a pattern.
pub open spec fn meta_character(c: char) -> bool {
    c == '\\' || c == '.' || c == '+' || c == '*' || c == '?' || c == '(' || c == ')' || c == '|' || c == '[' || c
        == ']' || c == '{' || c == '}' || c == '^' || c == '$' || c == '#' || c == '&' || c == '-' || c == '~'
}

/// A text as a pattern that stands for it: a backslash before each character
/// that has a meaning of its own.
pub open spec fn escaped(s: Seq<char>) -> Seq<char>
    decreases s.len(),
{
    if s.len() == 0 {
        Seq::empty()
    } else if meta_character(s.last()) {
        escaped(s.drop_last()).push('\\').push(s.last())
    } else {
        escaped(s.drop_last()).push(s.last())
    }
}

/// `regex_lite::escape`: a text as a pattern that stands for it.
#[verifier::external_body]
fn engine_escape(s: &str) -> (r: String)
    ensures
        r@ == escaped(s@),
{
    regex_lite::escape(s)
}

// ── Places in a text ─────────────────────────────────────────────────────────

/// How many characters from `i` on, which is at byte `off`, begin before a
/// byte, with those before `i`.
pub open spec fn index_from(s: Seq<char>, pos: int, i: int, off: int) -> int
    decreases s.len() - i,
{
    if i < 0 || i >= s.len() || off >= pos {
        i
    } else {
        index_from(s, pos, i + 1, off + utf8_width(s[i]))
    }
}

/// The index of the character at a byte of a text.
pub open spec fn char_index(s: Seq<char>, pos: usize) -> int {
    index_from(s, pos as int, 0, 0)
}

proof fn lemma_index_bounds(s: Seq<char>, pos: int, i: int, off: int)
    requires
        0 <= i <= s.len(),
    ensures
        i <= index_from(s, pos, i, off) <= s.len(),
    decreases s.len() - i,
{
    if i < s.len() && off < pos {
        lemma_index_bounds(s, pos, i + 1, off + utf8_width(s[i]));
    }
}

proof fn lemma_index_grows(s: Seq<char>, a: int, b: int, i: int, off: int)
    requires
        0 <= i <= s.len(),
        a <= b,
    ensures
        index_from(s, a, i, off) <= index_from(s, b, i, off),
    decreases s.len() - i,
{
    if i < s.len() && off < a {
        lemma_index_grows(s, a, b, i + 1, off + utf8_width(s[i]));
    } else {
        lemma_index_bounds(s, b, i, off);
    }
}

proof fn lemma_resume(s: Seq<char>, pos: int, i: int)
    requires
        0 <= i <= s.len(),
        byte_len(s.take(i)) <= pos,
    ensures
        index_from(s, pos, 0, 0) == index_from(s, pos, i, byte_len(s.take(i)) as int),
    decreases i,
{
    if i == 0 {
        assert(s.take(0) =~= Seq::empty());
    } else {
        assert(s.take(i).drop_last() =~= s.take(i - 1));
        lemma_resume(s, pos, i - 1);
    }
}

/// A place in a text: an index, and the byte at which that character begins.
struct CharCursor {
    byte: u128,
    chars: usize,
}

impl CharCursor {
    spec fn at(self, s: Seq<char>) -> bool {
        self.chars <= s.len() && self.byte == byte_len(s.take(self.chars as int))
    }

    fn new(s: &[char]) -> (r: CharCursor)
        ensures
            r.at(s@),
    {
        assert(s@.take(0) =~= Seq::empty());
        CharCursor { byte: 0, chars: 0 }
    }

    /// Move to a byte, and say at which character that is.
    fn char_index(&mut self, s: &[char], pos: usize) -> (r: usize)
        requires
            old(self).at(s@),
        ensures
            final(self).at(s@),
            r == char_index(s@, pos),
            r <= s@.len(),
    {
        proof {
            lemma_index_bounds(s@, pos as int, 0, 0);
            assert(s@.take(0) =~= Seq::empty());
        }
        if self.byte > pos as u128 {
            self.byte = 0;
            self.chars = 0;
        } else {
            proof {
                lemma_resume(s@, pos as int, self.chars as int);
            }
        }
        while self.chars < s.len() && self.byte < pos as u128
            invariant
                self.at(s@),
                self.byte <= pos + 4,
                char_index(s@, pos) == index_from(s@, pos as int, self.chars as int, self.byte as int),
            decreases s@.len() - self.chars,
        {
            assert(s@.take(self.chars + 1).drop_last() =~= s@.take(self.chars as int));
            self.byte = self.byte + width_of_char(s[self.chars]) as u128;
            self.chars = self.chars + 1;
        }
        self.chars
    }
}

/// The text of a group; one that took no part has none.
pub open spec fn span_text(s: Seq<char>, span: Option<(usize, usize)>) -> Seq<char> {
    match span {
        Some((a, b)) => s.subrange(char_index(s, a), char_index(s, b)),
        None => Seq::empty(),
    }
}

/// The pieces of a text between matches, from the match `k` on, the last one
/// having ended at a byte.
pub open spec fn pieces(s: Seq<char>, spans: Seq<Seq<Option<(usize, usize)>>>, k: int, prev: usize) -> Seq<Seq<char>>
    decreases spans.len() - k,
{
    if k < 0 || k >= spans.len() {
        seq![s.skip(char_index(s, prev))]
    } else {
        let (a, b) = spans[k][0]->0;
        seq![s.subrange(char_index(s, prev), char_index(s, a))] + pieces(s, spans, k + 1, b)
    }
}

fn copy_span(s: &[char], span: Option<(usize, usize)>, cursor: &mut CharCursor) -> (r: Vec<char>)
    requires
        old(cursor).at(s@),
        span is Some ==> (span->0).0 <= (span->0).1,
    ensures
        final(cursor).at(s@),
        r@ == span_text(s@, span),
{
    match span {
        Some((a, b)) => {
            let i: usize = cursor.char_index(s, a);
            let j: usize = cursor.char_index(s, b);
            proof {
                lemma_index_grows(s@, a as int, b as int, 0, 0);
            }
            part(s, i, j)
        },
        None => Vec::new(),
    }
}

// ── Patterns ─────────────────────────────────────────────────────────────────

/// A pattern that the engine accepts.
#[derive(Debug)]
pub struct Regex {
    source: String,
}

impl View for Regex {
    type V = Seq<char>;

    closed spec fn view(&self) -> Seq<char> {
        self.source@
    }
}

/// The letters that flags put before a pattern.
pub open spec fn inline_flags(flags: Seq<char>) -> Seq<char> {
    let i = if flags.contains('i') {
        seq!['i']
    } else {
        Seq::empty()
    };
    let m = if flags.contains('m') {
        i.push('m')
    } else {
        i
    };
    if flags.contains('s') {
        m.push('s')
    } else {
        m
    }
}

/// A pattern with its flags in front.
pub open spec fn full_pattern(pattern: Seq<char>, flags: Seq<char>) -> Seq<char> {
    let inline = inline_flags(flags);
    if inline.len() == 0 {
        pattern
    } else {
        seq!['(', '?'] + inline + seq![')'] + pattern
    }
}

proof fn lemma_find_contains(s: Seq<char>, c: char, from: int)
    requires
        0 <= from,
    ensures
        find_char(s, c, from) is Some <==> exists|k: int| from <= k < s.len() && s[k] == c,
    decreases s.len() - from,
{
    if from < s.len() && s[from] != c {
        lemma_find_contains(s, c, from + 1);
    }
}

fn has_flag(flags: &[char], c: char) -> (r: bool)
    ensures
        r == flags@.contains(c),
{
    proof {
        lemma_find_contains(flags@, c, 0);
    }
    find(flags, c, 0).is_some()
}

impl Regex {
    #[verifier::type_invariant]
    spec fn accepted(self) -> bool {
        regex_valid(self.source@)
    }

    /// Whether the pattern matches anywhere in a text.
    pub fn is_match(&self, s: &str) -> (r: bool)
        ensures
            r == (regex_captures(self@, s@).len() > 0),
    {
        proof {
            use_type_invariant(self);
        }
        engine_is_match(self.source.as_str(), s)
    }

    /// The matches in a text.
    pub fn captures(&self, s: &str) -> (r: Vec<Vec<Option<(usize, usize)>>>)
        ensures
            spans_of(r@) == regex_captures(self@, s@),
            in_order(spans_of(r@)),
    {
        proof {
            use_type_invariant(self);
        }
        engine_captures(self.source.as_str(), s)
    }

    /// The pieces of a text between the matches.
    pub fn split(&self, s: &str) -> (r: Vec<String>)
        ensures
            r@.map_values(|p: String| p@) == pieces(s@, regex_captures(self@, s@), 0, 0),
    {
        proof {
            use_type_invariant(self);
        }
        engine_split(self.source.as_str(), s)
    }
}

/// A pattern as a value, if the engine accepts it.
pub open spec fn out_regex(r: Result<Regex, JsonataError>) -> Result<Seq<char>, Seq<char>> {
    match r {
        Ok(re) => Ok(re@),
        Err(e) => Err(e.code@),
    }
}

/// A pattern if the engine accepts it, else the code for one that it does not.
pub open spec fn checked(source: Seq<char>) -> Result<Seq<char>, Seq<char>> {
    if regex_valid(source) {
        Ok(source)
    } else {
        Err("D3137"@)
    }
}

fn new_regex(source: String) -> (r: Result<Regex, JsonataError>)
    ensures
        out_regex(r) == checked(source@),
{
    if engine_accepts(source.as_str()) {
        Ok(Regex { source })
    } else {
        Err(JsonataError::ending("D3137", "invalid regex: ", chars_of(source.as_str()).as_slice()))
    }
}

/// A pattern with its flags, of which `i`, `m` and `s` count.
pub fn compile_regex(pattern: &str, flags: &str) -> (r: Result<Regex, JsonataError>)
    ensures
        out_regex(r) == checked(full_pattern(pattern@, flags@)),
{
    let f = chars_of(flags);
    let mut inline: Vec<char> = Vec::new();
    if has_flag(f.as_slice(), 'i') {
        inline.push('i');
    }
    if has_flag(f.as_slice(), 'm') {
        inline.push('m');
    }
    if has_flag(f.as_slice(), 's') {
        inline.push('s');
    }
    assert(inline@ =~= inline_flags(flags@));
    if inline.len() == 0 {
        return new_regex(pattern.to_owned());
    }
    let mut full: Vec<char> = Vec::new();
    full.push('(');
    full.push('?');
    push_all(&mut full, inline.as_slice());
    full.push(')');
    push_text(&mut full, pattern);
    assert(full@ =~= full_pattern(pattern@, flags@));
    new_regex(text_of(full.as_slice()))
}

/// The text that an object has for a key; without one, nothing.
pub open spec fn text_member(o: Seq<(Seq<char>, Val)>, key: Seq<char>) -> Seq<char> {
    match member(o, key) {
        Some(Val::String(s)) => s,
        _ => Seq::empty(),
    }
}

pub(crate) fn get_text<'a>(o: &'a ObjectMap, key: &str) -> (r: &'a str)
    ensures
        r@ == text_member(o@, key@),
{
    match o.get(key) {
        Some(Value::String(s)) => s.as_str(),
        _ => {
            proof {
                reveal_strlit("");
                assert(""@ =~= Seq::<char>::empty());
            }
            ""
        },
    }
}

/// The pattern that an argument stands for: text stands for itself, an object
/// for its pattern and flags.
pub open spec fn regex_of(v: Val) -> Result<Seq<char>, Seq<char>> {
    match v {
        Val::String(s) => checked(escaped(s)),
        Val::Object(o) => checked(full_pattern(text_member(o, "pattern"@), text_member(o, "flags"@))),
        _ => Err("T0410"@),
    }
}

/// The pattern that an argument stands for.
pub fn compile_regex_arg(v: &Value) -> (r: Result<Regex, JsonataError>)
    ensures
        out_regex(r) == regex_of(v@),
{
    match v {
        Value::String(s) => new_regex(engine_escape(s.as_str())),
        Value::Object(o) => compile_regex(get_text(o, "pattern"), get_text(o, "flags")),
        _ => Err(JsonataError::new("T0410", "expected a string or regex pattern")),
    }
}

// ── $match ───────────────────────────────────────────────────────────────────

/// What is told of a match.
pub open spec fn match_object(s: Seq<char>, caps: Seq<Option<(usize, usize)>>) -> Val {
    let (a, b) = caps[0]->0;
    Val::Object(
        seq![
            ("match"@, Val::String(span_text(s, caps[0]))),
            ("start"@, Val::Number(Number::of_int(char_index(s, a)))),
            ("end"@, Val::Number(Number::of_int(char_index(s, b)))),
            (
                "groups"@,
                Val::Array(
                    Seq::new((caps.len() - 1) as nat, |i: int| Val::String(span_text(s, caps[i + 1]))),
                ),
            ),
        ],
    )
}

fn build_match_object(s: &[char], caps: &Vec<Option<(usize, usize)>>, cursor: &mut CharCursor) -> (r: Value)
    requires
        old(cursor).at(s@),
        caps@.len() > 0,
        caps@[0] is Some,
        forall|g: int| 0 <= g < caps@.len() && (#[trigger] caps@[g]) is Some ==> (caps@[g]->0).0 <= (caps@[g]->0).1,
    ensures
        final(cursor).at(s@),
        r@ == match_object(s@, caps@),
{
    let (a, b) = match caps[0] {
        Some(p) => p,
        None => (0, 0),
    };
    let start: usize = cursor.char_index(s, a);
    let end: usize = cursor.char_index(s, b);
    proof {
        lemma_index_grows(s@, a as int, b as int, 0, 0);
    }
    let whole = part(s, start, end);
    let mut groups: Vec<Value> = Vec::new();
    let mut g: usize = 1;
    while g < caps.len()
        invariant
            1 <= g <= caps@.len(),
            cursor.at(s@),
            groups@.len() == g - 1,
            forall|q: int| 0 <= q < caps@.len() && (#[trigger] caps@[q]) is Some ==> (caps@[q]->0).0 <= (
            caps@[q]->0).1,
            forall|q: int|
                0 <= q < g - 1 ==> (#[trigger] vals(groups@)[q]) == Val::String(span_text(s@, caps@[q + 1])),
        decreases caps.len() - g,
    {
        let ghost before = groups@;
        let t = copy_span(s, caps[g], cursor);
        let x = Value::String(text_of(t.as_slice()));
        groups.push(x);
        assert(vals(groups@) =~= vals(before).push(x@));
        g = g + 1;
    }
    assert(vals(groups@) =~= Seq::new((caps@.len() - 1) as nat, |i: int| Val::String(span_text(s@, caps@[i + 1]))));
    let mut entries: Vec<Entry> = Vec::new();
    entries.push(Entry { key: "match".to_owned(), value: Value::String(text_of(whole.as_slice())) });
    entries.push(Entry { key: "start".to_owned(), value: Value::Number(Number::from_usize(start)) });
    entries.push(Entry { key: "end".to_owned(), value: Value::Number(Number::from_usize(end)) });
    entries.push(Entry { key: "groups".to_owned(), value: Value::Array(groups) });
    let o = ObjectMap { entries };
    let r = Value::Object(o);
    assert(o@ =~= match_object(s@, caps@)->Object_0);
    r
}

/// How many of `n` a limit lets through.
pub open spec fn within_limit(n: nat, limit: Option<nat>) -> nat {
    match limit {
        Some(l) => if l < n {
            l
        } else {
            n
        },
        None => n,
    }
}

fn count_within(n: usize, limit: Option<usize>) -> (r: usize)
    ensures
        r == within_limit(n as nat, as_limit(limit)),
{
    match limit {
        Some(l) => if l < n {
            l
        } else {
            n
        },
        None => n,
    }
}

/// What is told of the matches that a limit lets through.
pub open spec fn match_objects(
    s: Seq<char>,
    spans: Seq<Seq<Option<(usize, usize)>>>,
    limit: Option<nat>,
) -> Seq<Val> {
    Seq::new(within_limit(spans.len(), limit), |k: int| match_object(s, spans[k]))
}

/// `$match` with the matches already found.
pub fn matches_found(s: &[char], spans: &Vec<Vec<Option<(usize, usize)>>>, limit: Option<usize>) -> (r: Value)
    requires
        in_order(spans_of(spans@)),
    ensures
        r@ == Val::Sequence(match_objects(s@, spans_of(spans@), as_limit(limit))),
{
    let n: usize = count_within(spans.len(), limit);
    let ghost all = spans_of(spans@);
    let mut r: Vec<Value> = Vec::new();
    let mut cursor = CharCursor::new(s);
    let mut k: usize = 0;
    while k < n
        invariant
            k <= n <= spans@.len(),
            cursor.at(s@),
            all == spans_of(spans@),
            in_order(all),
            r@.len() == k,
            forall|q: int| 0 <= q < k ==> (#[trigger] vals(r@)[q]) == match_object(s@, all[q]),
        decreases n - k,
    {
        let ghost before = r@;
        assert(all[k as int] == spans@[k as int]@);
        assert forall|g: int|
            0 <= g < spans@[k as int]@.len() && (#[trigger] spans@[k as int]@[g]) is Some implies (
        spans@[k as int]@[g]->0).0 <= (spans@[k as int]@[g]->0).1 by {
            assert(all[k as int][g] is Some);
        }
        let x = build_match_object(s, &spans[k], &mut cursor);
        r.push(x);
        assert(vals(r@) =~= vals(before).push(x@));
        k = k + 1;
    }
    assert(vals(r@) =~= match_objects(s@, all, as_limit(limit)));
    Value::Sequence(Sequence::with_items(r))
}

/// The subject of `$match`, and how many matches are wanted at most.
pub open spec fn match_subject(a: Seq<Val>) -> Result<Option<(Seq<char>, Option<nat>)>, Seq<char>> {
    if a.len() < 2 {
        Err("T0410"@)
    } else {
        match a[0] {
            Val::Undefined => Ok(None),
            Val::String(s) => match arg(a, 2) {
                Val::Undefined => Ok(Some((s, None))),
                Val::Number(n) => if n.lt_spec(Number::of_int(0)) {
                    Ok(Some((s, None)))
                } else {
                    Ok(Some((s, Some(n.saturated(0, usize::MAX as int) as nat))))
                },
                _ => Err("T0410"@),
            },
            _ => Err("T0410"@),
        }
    }
}

/// What `$match` gives for a pattern that is no function.
pub open spec fn matched(a: Seq<Val>) -> Result<Val, Seq<char>> {
    match match_subject(a) {
        Err(e) => Err(e),
        Ok(None) => Ok(Val::Undefined),
        Ok(Some((s, limit))) => match regex_of(a[1]) {
            Err(e) => Err(e),
            Ok(source) => Ok(Val::Sequence(match_objects(s, regex_captures(source, s), limit))),
        },
    }
}

/// A value that an object has for a key, or another.
pub open spec fn member_or(o: Seq<(Seq<char>, Val)>, key: Seq<char>, other: Val) -> Val {
    match member(o, key) {
        Some(v) => v,
        None => other,
    }
}

/// What is told of a match that a function of the expression has found.
pub open spec fn custom_match(o: Seq<(Seq<char>, Val)>) -> Val {
    Val::Object(
        seq![
            ("match"@, member_or(o, "match"@, Val::Undefined)),
            ("index"@, member_or(o, "start"@, Val::Undefined)),
            ("groups"@, member_or(o, "groups"@, Val::Array(Seq::empty()))),
        ],
    )
}

/// Where matching by functions has come to.
pub struct Matching {
    /// What to call next, and with what.
    pub func: Fun,
    pub args: Seq<Val>,
    pub found: Seq<Val>,
    pub end: Option<Result<Val, Seq<char>>>,
}

/// Matching by functions, after an answer.
pub open spec fn matching_on(m: Matching, limit: Option<nat>, answer: Answer) -> Matching {
    match answer {
        Err(e) => Matching { end: Some(Err(e)), ..m },
        Ok(Val::Object(o)) => {
            let found = m.found.push(custom_match(o));
            let full = limit is Some && found.len() >= limit->0;
            match member(o, "next"@) {
                Some(Val::Function(f)) if !full => Matching { func: f, args: Seq::empty(), found, end: None },
                _ => Matching { found, end: Some(Ok(Val::Sequence(found))), ..m },
            }
        },
        Ok(_) => Matching { end: Some(Ok(Val::Sequence(m.found))), ..m },
    }
}

/// How `$match` works with a function for a pattern: it is called with the text
/// and zero, and each match that it gives may hold the function for the next.
pub open spec fn match_course(s: Seq<char>, matcher: Fun, limit: Option<nat>) -> Course<Matching> {
    Course {
        start: Matching {
            func: matcher,
            args: seq![Val::String(s), Val::Number(Number::of_int(0))],
            found: Seq::empty(),
            end: None,
        },
        plan: |m: Matching|
            match m.end {
                Some(r) => Plan::Finish(r),
                None => Plan::Put(Ask::Call { func: m.func, args: m.args, focus: Val::Undefined, scope: None }),
            },
        heed: |m: Matching, answer: Answer| matching_on(m, limit, answer),
    }
}

fn build_custom_match(o: &ObjectMap) -> (r: Value)
    ensures
        r@ == custom_match(o@),
{
    let m = match o.get("match") {
        Some(v) => v.clone(),
        None => Value::Undefined,
    };
    let i = match o.get("start") {
        Some(v) => v.clone(),
        None => Value::Undefined,
    };
    let g = match o.get("groups") {
        Some(v) => v.clone(),
        None => {
            let none: Vec<Value> = Vec::new();
            assert(vals(none@) =~= Seq::empty());
            Value::Array(none)
        },
    };
    let mut entries: Vec<Entry> = Vec::new();
    entries.push(Entry { key: "match".to_owned(), value: m });
    entries.push(Entry { key: "index".to_owned(), value: i });
    entries.push(Entry { key: "groups".to_owned(), value: g });
    let found = ObjectMap { entries };
    assert(found@ =~= custom_match(o@)->Object_0);
    Value::Object(found)
}

fn match_with_custom_matcher<
    C: Fn(&FunctionValue, &Vec<Value>, &Value, Option<usize>) -> JsonataResult,
    P: Fn(usize) -> Result<(), JsonataError>,
>(s: &str, matcher: &FunctionValue, limit: Option<usize>, call: &C, poll: &P) -> (r: JsonataResult)
    requires
        open_to_all(*call, *poll),
    ensures
        match_course(s@, matcher@, as_limit(limit)).ends(*call, *poll, out(r)),
{
    let ghost course = match_course(s@, matcher@, as_limit(limit));
    let ghost mut answers: Seq<Answer> = Seq::empty();
    proof {
        course.lemma_start(*call, *poll);
    }
    let mut found: Vec<Value> = Vec::new();
    assert(vals(found@) =~= Seq::empty());
    let mut func = matcher.clone();
    let mut args: Vec<Value> = Vec::new();
    args.push(Value::String(s.to_owned()));
    args.push(Value::Number(Number::from_usize(0)));
    assert(vals(args@) =~= course.start.args);
    let none = Value::Undefined;
    loop
        invariant
            open_to_all(*call, *poll),
            course == match_course(s@, matcher@, as_limit(limit)),
            course.heard(*call, *poll, answers),
            course.after(answers) == (Matching { func: func@, args: vals(args@), found: vals(found@), end: None }),
            none@ == Val::Undefined,
        decreases usize::MAX - found@.len(),
    {
        let ghost before = course.after(answers);
        let r = ask_call(call, &func, &args, &none, None);
        proof {
            let ask = Ask::Call { func: func@, args: vals(args@), focus: Val::Undefined, scope: None };
            assert(course.next(answers) == Plan::Put(ask));
            course.lemma_heard(*call, *poll, answers, ask, out(r));
            answers = answers.push(out(r));
            assert(course.after(answers) == matching_on(before, as_limit(limit), out(r)));
        }
        match r {
            Err(e) => {
                assert(course.next(answers) == Plan::Finish(Err::<Val, Seq<char>>(e.code@)));
                return Err(e);
            },
            Ok(Value::Object(o)) => {
                let ghost so_far = found@;
                let x = build_custom_match(&o);
                found.push(x);
                assert(vals(found@) =~= vals(so_far).push(x@));
                assert(found.len() == found@.len());
                let full: bool = match limit {
                    Some(l) => found.len() >= l,
                    None => false,
                };
                match o.get("next") {
                    Some(Value::Function(f)) if !full => {
                        func = f.clone();
                        args = Vec::new();
                        assert(vals(args@) =~= Seq::empty());
                    },
                    _ => {
                        assert(course.next(answers) == Plan::Finish(Ok::<Val, Seq<char>>(Val::Sequence(vals(found@)))));
                        return Ok(Value::Sequence(Sequence::with_items(found)));
                    },
                }
            },
            Ok(_) => {
                assert(course.next(answers) == Plan::Finish(Ok::<Val, Seq<char>>(Val::Sequence(vals(found@)))));
                return Ok(Value::Sequence(Sequence::with_items(found)));
            },
        }
    }
}

/// `$match(text, pattern, limit)`: what a pattern, or a function in its place,
/// matches in a text.
pub fn fn_match<
    C: Fn(&FunctionValue, &Vec<Value>, &Value, Option<usize>) -> JsonataResult,
    P: Fn(usize) -> Result<(), JsonataError>,
>(args: &[Value], _focus: &Value, call: &C, poll: &P) -> (r: JsonataResult)
    requires
        open_to_all(*call, *poll),
    ensures
        args@.len() < 2 || !(args@[1]@ is Function) ==> out(r) == matched(vals(args@)),
        args@.len() >= 2 && args@[1]@ is Function ==> match match_subject(vals(args@)) {
            Err(e) => out(r) == Err::<Val, Seq<char>>(e),
            Ok(None) => out(r) == Ok::<Val, Seq<char>>(Val::Undefined),
            Ok(Some((s, limit))) => match_course(s, args@[1]@->Function_0, limit).ends(*call, *poll, out(r)),
        },
{
    if args.len() < 2 {
        return fail("T0410", "$match: requires at least 2 arguments");
    }
    assert(vals(args@)[0] == args@[0]@);
    assert(vals(args@)[1] == args@[1]@);
    let s = match &args[0] {
        Value::Undefined => {
            return Ok(Value::Undefined);
        },
        Value::String(s) => s.as_str(),
        _ => {
            return fail("T0410", "$match: argument 1 must be a string");
        },
    };
    let mut limit: Option<usize> = None;
    if args.len() > 2 {
        assert(vals(args@)[2] == args@[2]@);
        match &args[2] {
            Value::Undefined => {},
            Value::Number(n) => {
                if !n.lt(&Number::from_usize(0)) {
                    limit = Some(n.to_usize());
                }
            },
            _ => {
                return fail("T0410", "$match: argument 3 must be a number");
            },
        }
    }
    assert(match_subject(vals(args@)) == Ok::<Option<(Seq<char>, Option<nat>)>, Seq<char>>(
        Some((s@, as_limit(limit))),
    ));
    if let Value::Function(f) = &args[1] {
        return match_with_custom_matcher(s, f, limit, call, poll);
    }
    match compile_regex_arg(&args[1]) {
        Err(e) => Err(e),
        Ok(re) => {
            let spans = re.captures(s);
            Ok(matches_found(chars_of(s).as_slice(), &spans, limit))
        },
    }
}

// ── $replace ─────────────────────────────────────────────────────────────────

/// The number of a back-reference; one too large for a machine word is zero.
pub open spec fn reference_number(d: Seq<char>) -> int {
    match parse_spec(d, 0, usize::MAX as int) {
        Some(n) => n,
        None => 0,
    }
}

/// What digits that are too large for a back-reference stand for: those that
/// make the longest prefix that is one, and the rest as it is. Without such a
/// prefix the first digit is dropped.
pub open spec fn shorter_reference(d: Seq<char>, n: int, full: Seq<char>, groups: Seq<Seq<char>>) -> Seq<char>
    decreases n,
{
    if n < 1 {
        if d.len() > 1 {
            d.skip(1)
        } else {
            Seq::empty()
        }
    } else {
        let p = reference_number(d.take(n));
        if p == 0 {
            full + d.skip(n)
        } else if p <= groups.len() {
            groups[p - 1] + d.skip(n)
        } else {
            shorter_reference(d, n - 1, full, groups)
        }
    }
}

/// What a back-reference stands for: zero for the whole match.
pub open spec fn reference(d: Seq<char>, full: Seq<char>, groups: Seq<Seq<char>>) -> Seq<char> {
    let n = reference_number(d);
    if n == 0 {
        full
    } else if n <= groups.len() {
        groups[n - 1]
    } else {
        shorter_reference(d, d.len() - 1, full, groups)
    }
}

/// A replacement from `i` on with its back-references filled in: `$` and a
/// number for a group, `$$` for a dollar.
pub open spec fn expanded(repl: Seq<char>, i: int, full: Seq<char>, groups: Seq<Seq<char>>) -> Seq<char>
    decreases repl.len() - i,
{
    if i < 0 || i >= repl.len() {
        Seq::empty()
    } else if repl[i] != '$' {
        seq![repl[i]] + expanded(repl, i + 1, full, groups)
    } else if i + 1 >= repl.len() {
        seq!['$']
    } else if repl[i + 1] == '$' {
        seq!['$'] + expanded(repl, i + 2, full, groups)
    } else if !is_digit(repl[i + 1]) {
        seq!['$'] + expanded(repl, i + 1, full, groups)
    } else {
        let e = i + 1 + digit_run(repl, i + 1);
        proof {
            lemma_digit_run(repl, i + 1);
        }
        reference(repl.subrange(i + 1, e), full, groups) + expanded(repl, e, full, groups)
    }
}

pub proof fn lemma_digit_run(s: Seq<char>, from: int)
    requires
        0 <= from <= s.len(),
    ensures
        from + digit_run(s, from) <= s.len(),
    decreases s.len() - from,
{
    if from < s.len() {
        lemma_digit_run(s, from + 1);
    }
}

fn read_reference(d: &[char]) -> (r: usize)
    ensures
        r == reference_number(d@),
{
    match parse_int(d, 0, usize::MAX as i128) {
        Some(n) => n as usize,
        None => 0,
    }
}

fn fill_reference(d: &[char], full: &[char], groups: &Vec<Vec<char>>) -> (r: Vec<char>)
    ensures
        r@ == reference(d@, full@, texts_of(groups@)),
{
    let ghost g = texts_of(groups@);
    let n: usize = read_reference(d);
    if n == 0 {
        return part(full, 0, full.len());
    }
    if n <= groups.len() {
        assert(g[n - 1] == groups@[n - 1]@);
        let t = groups[n - 1].as_slice();
        return part(t, 0, t.len());
    }
    let len: usize = d.len();
    let mut k: usize = if len == 0 {
        0
    } else {
        len - 1
    };
    while k >= 1
        invariant
            k <= len,
            k > 0 ==> k < len,
            len == d@.len(),
            g == texts_of(groups@),
            reference(d@, full@, g) == shorter_reference(d@, k as int, full@, g),
        decreases k,
    {
        let head = part(d, 0, k);
        assert(head@ =~= d@.take(k as int));
        let p: usize = read_reference(head.as_slice());
        if p == 0 || p <= groups.len() {
            let mut r: Vec<char> = Vec::new();
            if p == 0 {
                push_all(&mut r, full);
            } else {
                assert(g[p - 1] == groups@[p - 1]@);
                push_all(&mut r, groups[p - 1].as_slice());
            }
            let rest = part(d, k, len);
            assert(rest@ =~= d@.skip(k as int));
            push_all(&mut r, rest.as_slice());
            assert(r@ =~= shorter_reference(d@, k as int, full@, g));
            return r;
        }
        k = k - 1;
    }
    if len > 1 {
        let r = part(d, 1, len);
        assert(r@ =~= d@.skip(1));
        r
    } else {
        Vec::new()
    }
}

/// A replacement with its back-references filled in.
pub fn expand_replacement(repl: &[char], full: &[char], groups: &Vec<Vec<char>>) -> (r: Vec<char>)
    ensures
        r@ == expanded(repl@, 0, full@, texts_of(groups@)),
{
    let n: usize = repl.len();
    let ghost g = texts_of(groups@);
    let mut r: Vec<char> = Vec::new();
    let mut i: usize = 0;
    assert(r@ + expanded(repl@, 0, full@, g) =~= expanded(repl@, 0, full@, g));
    while i < n
        invariant
            i <= n,
            n == repl@.len(),
            g == texts_of(groups@),
            r@ + expanded(repl@, i as int, full@, g) == expanded(repl@, 0, full@, g),
        decreases n - i,
    {
        let ghost before = r@;
        let ghost rest = expanded(repl@, i as int, full@, g);
        if repl[i] != '$' {
            r.push(repl[i]);
            i = i + 1;
        } else if i + 1 >= n {
            r.push('$');
            i = n;
        } else if repl[i + 1] == '$' {
            r.push('$');
            i = i + 2;
        } else if !digit(repl[i + 1]) {
            r.push('$');
            i = i + 1;
        } else {
            let e: usize = digits_end(repl, i + 1);
            let d = part(repl, i + 1, e);
            let t = fill_reference(d.as_slice(), full, groups);
            push_all(&mut r, t.as_slice());
            i = e;
        }
        assert(r@ + expanded(repl@, i as int, full@, g) =~= before + rest);
    }
    assert(r@ + Seq::<char>::empty() =~= r@);
    r
}

/// The texts of the groups of a match.
pub open spec fn group_texts(s: Seq<char>, caps: Seq<Option<(usize, usize)>>) -> Seq<Seq<char>> {
    Seq::new((caps.len() - 1) as nat, |i: int| span_text(s, caps[i + 1]))
}

/// The text up to the end of the match before `k`, with the matches replaced,
/// and where that match ended. A match of no length has no replacement.
pub open spec fn replaced_upto(
    s: Seq<char>,
    spans: Seq<Seq<Option<(usize, usize)>>>,
    repl: Seq<char>,
    k: int,
) -> Option<(Seq<char>, usize)>
    decreases k,
{
    if k <= 0 {
        Some((Seq::empty(), 0))
    } else {
        match replaced_upto(s, spans, repl, k - 1) {
            None => None,
            Some((built, prev)) => {
                let caps = spans[k - 1];
                let (a, b) = caps[0]->0;
                let full = span_text(s, caps[0]);
                if full.len() == 0 {
                    None
                } else {
                    Some(
                        (
                            built + s.subrange(char_index(s, prev), char_index(s, a)) + expanded(
                                repl,
                                0,
                                full,
                                group_texts(s, caps),
                            ),
                            b,
                        ),
                    )
                }
            },
        }
    }
}

/// The text with the matches that a limit lets through replaced.
pub open spec fn regex_replaced(
    s: Seq<char>,
    spans: Seq<Seq<Option<(usize, usize)>>>,
    repl: Seq<char>,
    limit: Option<nat>,
) -> Result<Seq<char>, Seq<char>> {
    match replaced_upto(s, spans, repl, within_limit(spans.len(), limit) as int) {
        None => Err("D1004"@),
        Some((built, prev)) => Ok(built + s.skip(char_index(s, prev))),
    }
}

proof fn lemma_not_replaced(
    s: Seq<char>,
    spans: Seq<Seq<Option<(usize, usize)>>>,
    repl: Seq<char>,
    k: int,
    n: int,
)
    requires
        k <= n,
        replaced_upto(s, spans, repl, k) is None,
    ensures
        replaced_upto(s, spans, repl, n) is None,
    decreases n - k,
{
    if k < n {
        lemma_not_replaced(s, spans, repl, k, n - 1);
    }
}

pub open spec fn out_text(r: Result<Vec<char>, JsonataError>) -> Result<Seq<char>, Seq<char>> {
    match r {
        Ok(t) => Ok(t@),
        Err(e) => Err(e.code@),
    }
}

fn copy_groups(s: &[char], caps: &Vec<Option<(usize, usize)>>, cursor: &mut CharCursor) -> (r: Vec<Vec<char>>)
    requires
        old(cursor).at(s@),
        caps@.len() > 0,
        forall|g: int| 0 <= g < caps@.len() && (#[trigger] caps@[g]) is Some ==> (caps@[g]->0).0 <= (caps@[g]->0).1,
    ensures
        final(cursor).at(s@),
        texts_of(r@) == group_texts(s@, caps@),
{
    let mut r: Vec<Vec<char>> = Vec::new();
    let mut g: usize = 1;
    while g < caps.len()
        invariant
            1 <= g <= caps@.len(),
            cursor.at(s@),
            r@.len() == g - 1,
            forall|q: int| 0 <= q < caps@.len() && (#[trigger] caps@[q]) is Some ==> (caps@[q]->0).0 <= (
            caps@[q]->0).1,
            forall|q: int| 0 <= q < g - 1 ==> (#[trigger] r@[q])@ == span_text(s@, caps@[q + 1]),
        decreases caps.len() - g,
    {
        let t = copy_span(s, caps[g], cursor);
        r.push(t);
        g = g + 1;
    }
    assert(texts_of(r@) =~= group_texts(s@, caps@));
    r
}

/// The end of the match before `k`.
spec fn end_before(spans: Seq<Seq<Option<(usize, usize)>>>, k: int) -> usize {
    if k <= 0 {
        0
    } else {
        (spans[k - 1][0]->0).1
    }
}

/// `$replace` by text, with the matches already found.
pub fn replace_found(
    s: &[char],
    spans: &Vec<Vec<Option<(usize, usize)>>>,
    repl: &[char],
    limit: Option<usize>,
) -> (r: Result<Vec<char>, JsonataError>)
    requires
        in_order(spans_of(spans@)),
    ensures
        out_text(r) == regex_replaced(s@, spans_of(spans@), repl@, as_limit(limit)),
{
    let ghost all = spans_of(spans@);
    let n: usize = count_within(spans.len(), limit);
    let mut cursor = CharCursor::new(s);
    let mut built: Vec<char> = Vec::new();
    let mut prev: usize = 0;
    let mut k: usize = 0;
    while k < n
        invariant
            k <= n <= spans@.len(),
            n == within_limit(all.len(), as_limit(limit)),
            all == spans_of(spans@),
            in_order(all),
            cursor.at(s@),
            prev == end_before(all, k as int),
            replaced_upto(s@, all, repl@, k as int) == Some((built@, prev)),
        decreases n - k,
    {
        assert(all[k as int] == spans@[k as int]@);
        assert forall|g: int|
            0 <= g < spans@[k as int]@.len() && (#[trigger] spans@[k as int]@[g]) is Some implies (
        spans@[k as int]@[g]->0).0 <= (spans@[k as int]@[g]->0).1 by {
            assert(all[k as int][g] is Some);
        }
        let (a, b) = match spans[k][0] {
            Some(p) => p,
            None => (0, 0),
        };
        let i: usize = cursor.char_index(s, prev);
        let full = copy_span(s, spans[k][0], &mut cursor);
        if full.len() == 0 {
            proof {
                assert(replaced_upto(s@, all, repl@, k + 1) is None);
                lemma_not_replaced(s@, all, repl@, k + 1, n as int);
            }
            return Err(JsonataError::new("D1004", "$replace: the regex matched a zero-length string"));
        }
        proof {
            if k > 0 {
                assert((all[k - 1][0]->0).1 <= (all[k as int][0]->0).0);
            }
            lemma_index_grows(s@, prev as int, a as int, 0, 0);
        }
        let j: usize = cursor.char_index(s, a);
        let groups = copy_groups(s, &spans[k], &mut cursor);
        let t = expand_replacement(repl, full.as_slice(), &groups);
        let gap = part(s, i, j);
        push_all(&mut built, gap.as_slice());
        push_all(&mut built, t.as_slice());
        prev = b;
        k = k + 1;
    }
    let i: usize = cursor.char_index(s, prev);
    let rest = part(s, i, s.len());
    assert(rest@ =~= s@.skip(i as int));
    push_all(&mut built, rest.as_slice());
    Ok(built)
}

/// Where replacing by a function has come to.
pub struct Replacing {
    /// How many matches have been replaced.
    pub k: int,
    pub built: Seq<char>,
    /// Where the last match ended.
    pub prev: usize,
    pub end: Option<Seq<char>>,
}

/// Replacing by a function, after an answer.
pub open spec fn replacing_on(
    m: Replacing,
    s: Seq<char>,
    spans: Seq<Seq<Option<(usize, usize)>>>,
    answer: Answer,
) -> Replacing {
    match answer {
        Err(e) => Replacing { end: Some(e), ..m },
        Ok(Val::String(t)) => {
            let (a, b) = spans[m.k][0]->0;
            Replacing {
                k: m.k + 1,
                built: m.built + s.subrange(char_index(s, m.prev), char_index(s, a)) + t,
                prev: b,
                end: None,
            }
        },
        Ok(_) => Replacing { end: Some("D3012"@), ..m },
    }
}

/// How `$replace` works with a function for a replacement: it is called with
/// what is told of each match, and gives the text to put in its place.
pub open spec fn replace_course(
    s: Seq<char>,
    spans: Seq<Seq<Option<(usize, usize)>>>,
    func: Fun,
    limit: Option<nat>,
) -> Course<Replacing> {
    Course {
        start: Replacing { k: 0, built: Seq::empty(), prev: 0, end: None },
        plan: |m: Replacing|
            match m.end {
                Some(e) => Plan::Finish(Err(e)),
                None => if m.k >= within_limit(spans.len(), limit) {
                    Plan::Finish(Ok(Val::String(m.built + s.skip(char_index(s, m.prev)))))
                } else if span_text(s, spans[m.k][0]).len() == 0 {
                    Plan::Finish(Err("D1004"@))
                } else {
                    Plan::Put(
                        Ask::Call {
                            func,
                            args: seq![match_object(s, spans[m.k])],
                            focus: Val::Undefined,
                            scope: None,
                        },
                    )
                },
            },
        heed: |m: Replacing, answer: Answer| replacing_on(m, s, spans, answer),
    }
}

/// `$replace` by a function, with the matches already found.
pub fn replace_with_fn<
    C: Fn(&FunctionValue, &Vec<Value>, &Value, Option<usize>) -> JsonataResult,
    P: Fn(usize) -> Result<(), JsonataError>,
>(
    s: &[char],
    spans: &Vec<Vec<Option<(usize, usize)>>>,
    func: &FunctionValue,
    limit: Option<usize>,
    call: &C,
    poll: &P,
) -> (r: JsonataResult)
    requires
        in_order(spans_of(spans@)),
        open_to_all(*call, *poll),
    ensures
        replace_course(s@, spans_of(spans@), func@, as_limit(limit)).ends(*call, *poll, out(r)),
{
    let ghost all = spans_of(spans@);
    let ghost course = replace_course(s@, all, func@, as_limit(limit));
    let ghost mut answers: Seq<Answer> = Seq::empty();
    proof {
        course.lemma_start(*call, *poll);
    }
    let none = Value::Undefined;
    let n: usize = count_within(spans.len(), limit);
    let mut cursor = CharCursor::new(s);
    let mut built: Vec<char> = Vec::new();
    let mut prev: usize = 0;
    let mut k: usize = 0;
    assert(built@ =~= Seq::<char>::empty());
    while k < n
        invariant
            k <= n <= spans@.len(),
            n == within_limit(all.len(), as_limit(limit)),
            all == spans_of(spans@),
            in_order(all),
            cursor.at(s@),
            prev == end_before(all, k as int),
            none@ == Val::Undefined,
            open_to_all(*call, *poll),
            course == replace_course(s@, all, func@, as_limit(limit)),
            course.heard(*call, *poll, answers),
            course.after(answers) == (Replacing { k: k as int, built: built@, prev, end: None }),
        decreases n - k,
    {
        assert(all[k as int] == spans@[k as int]@);
        assert forall|g: int|
            0 <= g < spans@[k as int]@.len() && (#[trigger] spans@[k as int]@[g]) is Some implies (
        spans@[k as int]@[g]->0).0 <= (spans@[k as int]@[g]->0).1 by {
            assert(all[k as int][g] is Some);
        }
        let ghost before = course.after(answers);
        let (a, b) = match spans[k][0] {
            Some(p) => p,
            None => (0, 0),
        };
        let i: usize = cursor.char_index(s, prev);
        let full = copy_span(s, spans[k][0], &mut cursor);
        if full.len() == 0 {
            assert(course.next(answers) == Plan::Finish(Err::<Val, Seq<char>>("D1004"@)));
            return fail("D1004", "$replace: the regex matched a zero-length string");
        }
        proof {
            if k > 0 {
                assert((all[k - 1][0]->0).1 <= (all[k as int][0]->0).0);
            }
            lemma_index_grows(s@, prev as int, a as int, 0, 0);
        }
        let j: usize = cursor.char_index(s, a);
        let x = build_match_object(s, &spans[k], &mut cursor);
        let mut args: Vec<Value> = Vec::new();
        args.push(x);
        assert(vals(args@) =~= seq![match_object(s@, all[k as int])]);
        let r = ask_call(call, func, &args, &none, None);
        proof {
            let ask = Ask::Call { func: func@, args: vals(args@), focus: Val::Undefined, scope: None };
            assert(course.next(answers) == Plan::Put(ask));
            course.lemma_heard(*call, *poll, answers, ask, out(r));
            answers = answers.push(out(r));
            assert(course.after(answers) == replacing_on(before, s@, all, out(r)));
        }
        match r {
            Err(e) => {
                assert(course.next(answers) == Plan::Finish(Err::<Val, Seq<char>>(e.code@)));
                return Err(e);
            },
            Ok(Value::String(t)) => {
                let gap = part(s, i, j);
                push_all(&mut built, gap.as_slice());
                push_text(&mut built, t.as_str());
                prev = b;
                k = k + 1;
            },
            Ok(_) => {
                assert(course.next(answers) == Plan::Finish(Err::<Val, Seq<char>>("D3012"@)));
                return fail("D3012", "$replace: replacement function must return a string");
            },
        }
    }
    let i: usize = cursor.char_index(s, prev);
    let rest = part(s, i, s.len());
    assert(rest@ =~= s@.skip(i as int));
    push_all(&mut built, rest.as_slice());
    assert(course.next(answers) == Plan::Finish(Ok::<Val, Seq<char>>(Val::String(built@))));
    Ok(Value::String(text_of(built.as_slice())))
}

/// The subject of `$replace`, and how many replacements are wanted at most.
pub open spec fn replace_subject(a: Seq<Val>) -> Result<Option<(Seq<char>, Option<nat>)>, Seq<char>> {
    match arg(a, 0) {
        Val::Undefined => Ok(None),
        Val::String(s) => if a.len() < 3 {
            Err("T0410"@)
        } else {
            match arg(a, 3) {
                Val::Undefined => Ok(Some((s, None))),
                Val::Number(n) => if n.lt_spec(Number::of_int(0)) {
                    Err("D3011"@)
                } else {
                    Ok(Some((s, Some(n.saturated(0, usize::MAX as int) as nat))))
                },
                _ => Err("T0410"@),
            }
        },
        _ => Err("T0410"@),
    }
}

/// Whether `$replace` gets as far as to call a function.
pub open spec fn replaces_by_function(a: Seq<Val>) -> bool {
    a.len() >= 3 && a[2] is Function && regex_of(a[1]) is Ok && replace_subject(a) matches Ok(Some(_))
}

/// What `$replace` gives where it calls no function.
pub open spec fn replace(a: Seq<Val>) -> Result<Val, Seq<char>> {
    match replace_subject(a) {
        Err(e) => Err(e),
        Ok(None) => Ok(Val::Undefined),
        Ok(Some((s, limit))) => match (a[1], a[2]) {
            (Val::String(pattern), Val::String(repl)) => if pattern.len() == 0 {
                Err("D3010"@)
            } else {
                Ok(Val::String(replaced(s, pattern, repl, 0, limit)))
            },
            _ => match regex_of(a[1]) {
                Err(e) => Err(e),
                Ok(source) => match a[2] {
                    Val::String(repl) => match regex_replaced(s, regex_captures(source, s), repl, limit) {
                        Ok(t) => Ok(Val::String(t)),
                        Err(e) => Err(e),
                    },
                    _ => Err("T0410"@),
                },
            },
        },
    }
}

/// `$replace(text, pattern, replacement, limit)`: a text with what a pattern
/// matches replaced, by text or by what a function gives.
pub fn fn_replace<
    C: Fn(&FunctionValue, &Vec<Value>, &Value, Option<usize>) -> JsonataResult,
    P: Fn(usize) -> Result<(), JsonataError>,
>(args: &[Value], _focus: &Value, call: &C, poll: &P) -> (r: JsonataResult)
    requires
        open_to_all(*call, *poll),
    ensures
        !replaces_by_function(vals(args@)) ==> out(r) == replace(vals(args@)),
        replaces_by_function(vals(args@)) ==> {
            let (s, limit) = (replace_subject(vals(args@))->Ok_0)->0;
            let source = regex_of(args@[1]@)->Ok_0;
            replace_course(s, regex_captures(source, s), args@[2]@->Function_0, limit).ends(*call, *poll, out(r))
        },
{
    let ghost a = vals(args@);
    if args.len() == 0 {
        return Ok(Value::Undefined);
    }
    assert(a[0] == args@[0]@);
    let s = match &args[0] {
        Value::Undefined => {
            return Ok(Value::Undefined);
        },
        Value::String(s) => s.as_str(),
        _ => {
            return fail("T0410", "$replace: argument 1 must be a string");
        },
    };
    if args.len() < 3 {
        return fail("T0410", "$replace: argument 3 (replacement) is required");
    }
    assert(a[1] == args@[1]@);
    assert(a[2] == args@[2]@);
    let mut limit: Option<usize> = None;
    if args.len() > 3 {
        assert(a[3] == args@[3]@);
        match &args[3] {
            Value::Undefined => {},
            Value::Number(n) => {
                if n.lt(&Number::from_usize(0)) {
                    return fail("D3011", "$replace: fourth argument must not be negative");
                }
                limit = Some(n.to_usize());
            },
            _ => {
                return fail("T0410", "$replace: fourth argument must be a number");
            },
        }
    }
    assert(replace_subject(a) == Ok::<Option<(Seq<char>, Option<nat>)>, Seq<char>>(Some((s@, as_limit(limit)))));
    let c = chars_of(s);
    if let (Value::String(pattern), Value::String(repl)) = (&args[1], &args[2]) {
        let p = chars_of(pattern.as_str());
        if p.len() == 0 {
            return fail("D3010", "$replace: pattern cannot be an empty string");
        }
        let t = replace_text(c.as_slice(), p.as_slice(), chars_of(repl.as_str()).as_slice(), limit);
        return Ok(Value::String(text_of(t.as_slice())));
    }
    let re = match compile_regex_arg(&args[1]) {
        Err(e) => {
            return Err(e);
        },
        Ok(re) => re,
    };
    match &args[2] {
        Value::String(repl) => {
            let spans = re.captures(s);
            match replace_found(c.as_slice(), &spans, chars_of(repl.as_str()).as_slice(), limit) {
                Ok(t) => Ok(Value::String(text_of(t.as_slice()))),
                Err(e) => Err(e),
            }
        },
        Value::Function(f) => {
            let spans = re.captures(s);
            replace_with_fn(c.as_slice(), &spans, f, limit, call, poll)
        },
        _ => fail("T0410", "$replace: argument 3 must be a string or function"),
    }
}

// ── What holds of it ─────────────────────────────────────────────────────────

/// A replacement without a dollar is put in as it is.
pub proof fn law_plain_replacement(repl: Seq<char>, i: int, full: Seq<char>, groups: Seq<Seq<char>>)
    requires
        0 <= i <= repl.len(),
        !repl.contains('$'),
    ensures
        expanded(repl, i, full, groups) == repl.skip(i),
    decreases repl.len() - i,
{
    if i < repl.len() {
        assert(repl.contains(repl[i]));
        law_plain_replacement(repl, i + 1, full, groups);
        assert(seq![repl[i]] + repl.skip(i + 1) =~= repl.skip(i));
    }
}

proof fn lemma_whole_reference(full: Seq<char>, groups: Seq<Seq<char>>)
    ensures
        expanded("$0"@, 0, full, groups) == full,
{
    reveal_strlit("$0");
    let repl = "$0"@;
    reveal_with_fuel(digit_run, 2);
    assert(digit_run(repl, 1) == 1);
    let d = repl.subrange(1, 2);
    assert(d =~= seq!['0']);
    reveal_with_fuel(number_of, 2);
    assert(d.drop_last() =~= Seq::<char>::empty());
    assert(number_of(d) == 0);
    assert(reference(d, full, groups) == full);
    assert(expanded(repl, 2, full, groups) =~= Seq::empty());
    assert(full + expanded(repl, 2, full, groups) =~= full);
}

proof fn lemma_replaced_by_itself(s: Seq<char>, spans: Seq<Seq<Option<(usize, usize)>>>, k: int)
    requires
        in_order(spans),
        0 <= k <= spans.len(),
    ensures
        match replaced_upto(s, spans, "$0"@, k) {
            Some((built, prev)) => built == s.take(char_index(s, prev)) && prev == end_before(spans, k),
            None => true,
        },
    decreases k,
{
    if k == 0 {
        assert(s.take(0) =~= Seq::empty());
    } else {
        lemma_replaced_by_itself(s, spans, k - 1);
        let caps = spans[k - 1];
        lemma_whole_reference(span_text(s, caps[0]), group_texts(s, caps));
        match replaced_upto(s, spans, "$0"@, k - 1) {
            Some((built, prev)) => {
                let (a, b) = caps[0]->0;
                assert(prev <= a <= b);
                lemma_index_bounds(s, prev as int, 0, 0);
                lemma_index_grows(s, prev as int, a as int, 0, 0);
                lemma_index_grows(s, a as int, b as int, 0, 0);
                lemma_index_bounds(s, b as int, 0, 0);
                let (p, x, y) = (char_index(s, prev), char_index(s, a), char_index(s, b));
                assert(s.take(p) + s.subrange(p, x) + s.subrange(x, y) =~= s.take(y));
            },
            None => {},
        }
    }
}

/// Replacing each match by itself leaves the text as it was, unless a match has
/// no length.
pub proof fn law_replaced_by_itself(
    s: Seq<char>,
    spans: Seq<Seq<Option<(usize, usize)>>>,
    limit: Option<nat>,
)
    requires
        in_order(spans),
    ensures
        regex_replaced(s, spans, "$0"@, limit) == Ok::<Seq<char>, Seq<char>>(s) || regex_replaced(
            s,
            spans,
            "$0"@,
            limit,
        ) == Err::<Seq<char>, Seq<char>>("D1004"@),
{
    let n = within_limit(spans.len(), limit) as int;
    lemma_replaced_by_itself(s, spans, n);
    match replaced_upto(s, spans, "$0"@, n) {
        Some((built, prev)) => {
            lemma_index_bounds(s, prev as int, 0, 0);
            assert(s.take(char_index(s, prev)) + s.skip(char_index(s, prev)) =~= s);
        },
        None => {},
    }
}

proof fn lemma_pieces_joined(s: Seq<char>, spans: Seq<Seq<Option<(usize, usize)>>>, repl: Seq<char>, k: int)
    requires
        0 <= k <= spans.len(),
        !repl.contains('$'),
        replaced_upto(s, spans, repl, k) is Some,
    ensures
        ({
            let (built, prev) = replaced_upto(s, spans, repl, k)->0;
            joined(pieces(s, spans, 0, 0), repl) == built + joined(pieces(s, spans, k, prev), repl)
        }),
    decreases k,
{
    if k == 0 {
        assert(Seq::<char>::empty() + joined(pieces(s, spans, 0, 0), repl) =~= joined(pieces(s, spans, 0, 0), repl));
    } else {
        lemma_pieces_joined(s, spans, repl, k - 1);
        let (built, prev) = replaced_upto(s, spans, repl, k - 1)->0;
        let caps = spans[k - 1];
        let (a, b) = caps[0]->0;
        law_plain_replacement(repl, 0, span_text(s, caps[0]), group_texts(s, caps));
        assert(repl.skip(0) =~= repl);
        let gap = s.subrange(char_index(s, prev), char_index(s, a));
        let rest = pieces(s, spans, k, b);
        assert(rest.len() > 0);
        lemma_joined_first(gap, rest, repl);
        assert(built + (gap + repl + joined(rest, repl)) =~= built + gap + repl + joined(rest, repl));
    }
}

/// Replacing every match by a text without a dollar is splitting at the matches
/// and joining with that text.
pub proof fn law_regex_replace_is_split_and_join(
    s: Seq<char>,
    spans: Seq<Seq<Option<(usize, usize)>>>,
    repl: Seq<char>,
)
    requires
        !repl.contains('$'),
        regex_replaced(s, spans, repl, None) is Ok,
    ensures
        regex_replaced(s, spans, repl, None)->Ok_0 == joined(pieces(s, spans, 0, 0), repl),
{
    lemma_pieces_joined(s, spans, repl, spans.len() as int);
}

} // verus!
