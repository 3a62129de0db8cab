//! Arguments of built-in functions.
use vstd::prelude::*;

use crate::error::JsonataError;
use crate::text::chars_of;
use crate::value::{vals, Val, Value};

verus! {

/// The argument at a position; one that was not given is undefined.
pub open spec fn arg(a: Seq<Val>, i: int) -> Val {
    if 0 <= i < a.len() {
        a[i]
    } else {
        Val::Undefined
    }
}

/// Whether an argument is missing or undefined.
pub fn is_missing(args: &[Value], i: usize) -> (r: bool)
    ensures
        r == (arg(vals(args@), i as int) is Undefined),
        !r ==> i < args@.len(),
{
    if i >= args.len() {
        return true;
    }
    assert(vals(args@)[i as int] == args@[i as int]@);
    args[i].is_undefined()
}

/// The code for an argument of the wrong type: one of its own where the
/// argument came from the context.
pub open spec fn context_code(from_context: bool) -> Seq<char> {
    if from_context {
        "T0411"@
    } else {
        "T0410"@
    }
}

/// The code for an argument of the wrong type.
pub fn context_arg_code(from_context: bool) -> (r: &'static str)
    ensures
        r@ == context_code(from_context),
{
    if from_context {
        "T0411"
    } else {
        "T0410"
    }
}

/// Text that may be left out, or the code of an error.
pub open spec fn optional_text(v: Val) -> Result<Option<Seq<char>>, Seq<char>> {
    match v {
        Val::Undefined => Ok(None),
        Val::String(s) => Ok(Some(s)),
        _ => Err("T0410"@),
    }
}

pub open spec fn out_optional(r: Result<Option<Vec<char>>, JsonataError>) -> Result<Option<Seq<char>>, Seq<char>> {
    match r {
        Ok(Some(t)) => Ok(Some(t@)),
        Ok(None) => Ok(None),
        Err(e) => Err(e.code@),
    }
}

/// Text that may be left out.
pub fn optional_text_arg(args: &[Value], i: usize, message: &str) -> (r: Result<Option<Vec<char>>, JsonataError>)
    ensures
        out_optional(r) == optional_text(arg(vals(args@), i as int)),
{
    if is_missing(args, i) {
        return Ok(None);
    }
    assert(vals(args@)[i as int] == args@[i as int]@);
    match &args[i] {
        Value::String(s) => Ok(Some(chars_of(s.as_str()))),
        _ => Err(JsonataError::new("T0410", message)),
    }
}

} // verus!
