//! Errors: a code from the JSONata error tables, with what is known of its place.
use vstd::prelude::*;

use crate::text::{chars_of, push_all, push_text, text_of};
use crate::value::{Val, Value};

verus! {

/// What went wrong, identified by its code.
#[derive(Debug)]
pub struct JsonataError {
    /// Code from the JSONata error tables, such as `T0410`.
    pub code: &'static str,
    /// A sentence for a reader.
    pub message: String,
    /// Character position in the source, for errors of the parser.
    pub position: Option<usize>,
    /// The offending token, or nothing.
    pub token: String,
    /// The offending value, or nothing.
    pub value: String,
}

impl JsonataError {
    pub fn new(code: &'static str, message: &str) -> (r: JsonataError)
        ensures
            r.code@ == code@,
            r.message@ == message@,
            fault(r) == bare_fault(code@),
            r.value@.len() == 0,
    {
        let token = String::new();
        assert(token@ =~= Seq::<char>::empty());
        JsonataError {
            code,
            message: message.to_owned(),
            position: None,
            token,
            value: String::new(),
        }
    }

    /// An error with a sentence that quotes something.
    pub fn about(code: &'static str, before: &str, what: &[char], after: &str) -> (r: JsonataError)
        ensures
            r.code@ == code@,
            r.message@ == before@ + what@ + after@,
            fault(r) == bare_fault(code@),
            r.value@.len() == 0,
    {
        let mut m: Vec<char> = Vec::new();
        push_text(&mut m, before);
        push_all(&mut m, what);
        push_text(&mut m, after);
        assert(m@ =~= before@ + what@ + after@);
        let token = String::new();
        assert(token@ =~= Seq::<char>::empty());
        JsonataError {
            code,
            message: text_of(m.as_slice()),
            position: None,
            token,
            value: String::new(),
        }
    }

    /// An error with a sentence that ends in something.
    pub fn ending(code: &'static str, before: &str, what: &[char]) -> (r: JsonataError)
        ensures
            r.code@ == code@,
            r.message@ == before@ + what@,
            fault(r) == bare_fault(code@),
            r.value@.len() == 0,
    {
        let mut m: Vec<char> = chars_of(before);
        push_all(&mut m, what);
        JsonataError::new(code, text_of(m.as_slice()).as_str())
    }

    /// An error with a code alone.
    pub fn with_code(code: &'static str) -> (r: JsonataError)
        ensures
            r.code@ == code@,
            r.message@.len() == 0,
            r.position is None,
            r.token@.len() == 0,
            r.value@.len() == 0,
    {
        JsonataError {
            code,
            message: String::new(),
            position: None,
            token: String::new(),
            value: String::new(),
        }
    }

    pub fn with_position(self, pos: usize) -> (r: JsonataError)
        ensures
            r.code == self.code,
            r.message == self.message,
            r.position == Some(pos),
            r.token == self.token,
            r.value == self.value,
    {
        JsonataError {
            code: self.code,
            message: self.message,
            position: Some(pos),
            token: self.token,
            value: self.value,
        }
    }

    pub fn with_token(self, token: String) -> (r: JsonataError)
        ensures
            r.code == self.code,
            r.message == self.message,
            r.position == self.position,
            r.token == token,
            r.value == self.value,
    {
        JsonataError {
            code: self.code,
            message: self.message,
            position: self.position,
            token,
            value: self.value,
        }
    }

    pub fn with_value(self, value: String) -> (r: JsonataError)
        ensures
            r.code == self.code,
            r.message == self.message,
            r.position == self.position,
            r.token == self.token,
            r.value == value,
    {
        JsonataError {
            code: self.code,
            message: self.message,
            position: self.position,
            token: self.token,
            value,
        }
    }
}

/// What evaluating something gives.
pub type JsonataResult = Result<Value, JsonataError>;

/// A result as contracts speak of it: the value, or the code of the error.
pub open spec fn out(r: JsonataResult) -> Result<Val, Seq<char>> {
    match r {
        Ok(v) => Ok(v@),
        Err(e) => Err(e.code@),
    }
}

/// A result with the whole of its error.
pub open spec fn told(r: JsonataResult) -> Result<Val, JsonataError> {
    match r {
        Ok(v) => Ok(v@),
        Err(e) => Err(e),
    }
}

/// A failure with a code.
pub fn fail(code: &'static str, message: &str) -> (r: JsonataResult)
    ensures
        out(r) == Err::<Val, Seq<char>>(code@),
        r is Err,
        fault(r->Err_0) == bare_fault(code@),
        r->Err_0.message@ == message@,
{
    Err(JsonataError::new(code, message))
}

/// An error as the contracts of the parser speak of it.
#[verifier::ext_equal]
pub struct Fault {
    pub code: Seq<char>,
    pub position: Option<usize>,
    pub token: Seq<char>,
}

/// What an error says.
pub open spec fn fault(e: JsonataError) -> Fault {
    Fault { code: e.code@, position: e.position, token: e.token@ }
}

/// An error at a position.
pub open spec fn fault_at(code: Seq<char>, pos: usize) -> Fault {
    Fault { code, position: Some(pos), token: Seq::empty() }
}

/// An error at a position, with the token that it is about.
pub open spec fn fault_on(code: Seq<char>, pos: usize, token: Seq<char>) -> Fault {
    Fault { code, position: Some(pos), token }
}

/// An error with a code alone.
pub open spec fn bare_fault(code: Seq<char>) -> Fault {
    Fault { code, position: None, token: Seq::empty() }
}

/// An error at a position.
pub fn error_at(code: &'static str, message: &str, pos: usize) -> (r: JsonataError)
    ensures
        fault(r) == fault_at(code@, pos),
{
    let e = JsonataError::new(code, message).with_position(pos);
    assert(e.token@ =~= Seq::<char>::empty());
    e
}

/// An error at a position, whose sentence quotes something.
pub fn error_about(code: &'static str, before: &str, what: &str, after: &str, pos: usize) -> (r: JsonataError)
    ensures
        fault(r) == fault_at(code@, pos),
        r.message@ == before@ + what@ + after@,
{
    JsonataError::about(code, before, chars_of(what).as_slice(), after).with_position(pos)
}

/// An error at a position about a token, which its sentence ends in.
pub fn error_naming(code: &'static str, before: &str, pos: usize, token: String) -> (r: JsonataError)
    ensures
        fault(r) == fault_on(code@, pos, token@),
        r.message@ == before@ + token@,
{
    let what = chars_of(token.as_str());
    JsonataError::ending(code, before, what.as_slice()).with_position(pos).with_token(token)
}

/// An error at a position, with the token that it is about.
pub fn error_on(code: &'static str, message: &str, pos: usize, token: String) -> (r: JsonataError)
    ensures
        fault(r) == fault_on(code@, pos, token@),
{
    JsonataError::new(code, message).with_position(pos).with_token(token)
}

} // verus!
