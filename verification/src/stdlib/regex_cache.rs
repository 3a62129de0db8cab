//! Patterns kept for another use.
use std::rc::Rc;
use vstd::prelude::*;

use super::regex::{
    checked, compile_regex, compile_regex_arg, escaped, full_pattern, get_text, regex_of, text_member, Regex,
};
use crate::error::JsonataError;
use crate::text::{chars_of, same};
use crate::value::{Val, Value};

verus! {

/// How many patterns are kept; with one more, all but that one are dropped.
pub const REGEX_CACHE_CAP: usize = 256;

/// What a pattern was made from: text that it stands for, or a source with
/// flags. The two never count as the same, whatever they hold.
#[verifier::ext_equal]
pub enum Key {
    Literal(Seq<char>),
    Pattern { pattern: Seq<char>, flags: Seq<char> },
}

/// The pattern that is made from something.
pub open spec fn source_of(k: Key) -> Seq<char> {
    match k {
        Key::Literal(s) => escaped(s),
        Key::Pattern { pattern, flags } => full_pattern(pattern, flags),
    }
}

enum Asked {
    Literal(Vec<char>),
    Pattern { pattern: Vec<char>, flags: Vec<char> },
}

impl View for Asked {
    type V = Key;

    closed spec fn view(&self) -> Key {
        match *self {
            Asked::Literal(s) => Key::Literal(s@),
            Asked::Pattern { pattern, flags } => Key::Pattern { pattern: pattern@, flags: flags@ },
        }
    }
}

impl Asked {
    fn is_same(&self, other: &Asked) -> (r: bool)
        ensures
            r == (self@ == other@),
    {
        match (self, other) {
            (Asked::Literal(a), Asked::Literal(b)) => same(a.as_slice(), b.as_slice()),
            (Asked::Pattern { pattern: a, flags: f }, Asked::Pattern { pattern: b, flags: g }) => {
                same(f.as_slice(), g.as_slice()) && same(a.as_slice(), b.as_slice())
            },
            _ => false,
        }
    }
}

/// Patterns by what they were made from.
pub struct RegexCache {
    entries: Vec<(Asked, Rc<Regex>)>,
}

impl View for RegexCache {
    type V = Seq<Key>;

    closed spec fn view(&self) -> Seq<Key> {
        self.entries@.map_values(|e: (Asked, Rc<Regex>)| e.0@)
    }
}

/// What a cache holds after it has been asked for a pattern that could or could
/// not be made.
pub open spec fn kept(held: Seq<Key>, k: Key, made: bool) -> Seq<Key> {
    if held.contains(k) || !made {
        held
    } else if held.len() >= REGEX_CACHE_CAP {
        seq![k]
    } else {
        held.push(k)
    }
}

pub open spec fn out_shared(r: Result<Rc<Regex>, JsonataError>) -> Result<Seq<char>, Seq<char>> {
    match r {
        Ok(re) => Ok((*re)@),
        Err(e) => Err(e.code@),
    }
}

impl RegexCache {
    /// Whether each pattern is that of what it was made from, and there are no
    /// more than may be kept.
    pub closed spec fn wf(&self) -> bool {
        &&& self.entries@.len() <= REGEX_CACHE_CAP
        &&& forall|i: int|
            0 <= i < self.entries@.len() ==> checked(source_of((#[trigger] self.entries@[i]).0@)) == Ok::<
                Seq<char>,
                Seq<char>,
            >((*self.entries@[i].1)@)
    }

    /// A cache without patterns.
    pub fn new() -> (r: RegexCache)
        ensures
            r.wf(),
            r@.len() == 0,
    {
        RegexCache { entries: Vec::new() }
    }

    fn find(&self, asked: &Asked) -> (r: Option<Rc<Regex>>)
        requires
            self.wf(),
        ensures
            match r {
                Some(re) => self@.contains(asked@) && checked(source_of(asked@)) == Ok::<Seq<char>, Seq<char>>((*re)@),
                None => !self@.contains(asked@),
            },
    {
        let mut i: usize = 0;
        while i < self.entries.len()
            invariant
                i <= self.entries.len(),
                self.wf(),
                forall|k: int| 0 <= k < i ==> #[trigger] self@[k] != asked@,
            decreases self.entries.len() - i,
        {
            if self.entries[i].0.is_same(asked) {
                assert(self@[i as int] == asked@);
                return Some(Rc::clone(&self.entries[i].1));
            }
            i = i + 1;
        }
        None
    }

    fn keep(&mut self, asked: Asked, re: Rc<Regex>)
        requires
            old(self).wf(),
            !old(self)@.contains(asked@),
            checked(source_of(asked@)) == Ok::<Seq<char>, Seq<char>>((*re)@),
        ensures
            final(self).wf(),
            final(self)@ == kept(old(self)@, asked@, true),
    {
        if self.entries.len() >= REGEX_CACHE_CAP {
            self.entries.clear();
        }
        self.entries.push((asked, re));
        assert(self@ =~= kept(old(self)@, asked@, true));
    }

    /// A pattern with its flags, made only if it is not there yet.
    pub fn compile_regex(&mut self, pattern: &str, flags: &str) -> (r: Result<Rc<Regex>, JsonataError>)
        requires
            old(self).wf(),
        ensures
            final(self).wf(),
            out_shared(r) == checked(full_pattern(pattern@, flags@)),
            final(self)@ == kept(old(self)@, (Key::Pattern { pattern: pattern@, flags: flags@ }), r is Ok),
    {
        let asked = Asked::Pattern { pattern: chars_of(pattern), flags: chars_of(flags) };
        match self.find(&asked) {
            Some(re) => Ok(re),
            None => match compile_regex(pattern, flags) {
                Ok(re) => {
                    let re = Rc::new(re);
                    self.keep(asked, Rc::clone(&re));
                    Ok(re)
                },
                Err(e) => Err(e),
            },
        }
    }

    /// The pattern that an argument stands for, made only if it is not there
    /// yet.
    pub fn compile_regex_arg(&mut self, v: &Value) -> (r: Result<Rc<Regex>, JsonataError>)
        requires
            old(self).wf(),
        ensures
            final(self).wf(),
            out_shared(r) == regex_of(v@),
            match v@ {
                Val::String(s) => final(self)@ == kept(old(self)@, Key::Literal(s), r is Ok),
                Val::Object(o) => final(self)@ == kept(
                    old(self)@,
                    (Key::Pattern { pattern: text_member(o, "pattern"@), flags: text_member(o, "flags"@) }),
                    r is Ok,
                ),
                _ => final(self)@ == old(self)@,
            },
    {
        match v {
            Value::Object(o) => self.compile_regex(get_text(o, "pattern"), get_text(o, "flags")),
            Value::String(s) => {
                let asked = Asked::Literal(chars_of(s.as_str()));
                match self.find(&asked) {
                    Some(re) => Ok(re),
                    None => match compile_regex_arg(v) {
                        Ok(re) => {
                            let re = Rc::new(re);
                            self.keep(asked, Rc::clone(&re));
                            Ok(re)
                        },
                        Err(e) => Err(e),
                    },
                }
            },
            _ => match compile_regex_arg(v) {
                Ok(re) => Ok(Rc::new(re)),
                Err(e) => Err(e),
            },
        }
    }
}

} // verus!
