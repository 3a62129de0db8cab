//! Types and checks: `$type` and `$assert`.
use vstd::prelude::*;

use crate::decimal::{number_chars, number_text};
use crate::error::{fail, out, JsonataError, JsonataResult};
use crate::text::text_of;
use crate::value::{vals, Val, Value};

verus! {

/// The name of a value's type. A number that is not a number counts as an
/// object, and the infinities have no type.
pub open spec fn name_of_type(v: Val) -> Result<Seq<char>, Seq<char>> {
    match v {
        Val::Null => Ok("null"@),
        Val::Bool(_) => Ok("boolean"@),
        Val::Number(n) => if n.infinite() {
            Err("D1001"@)
        } else if n.nan() {
            Ok("object"@)
        } else {
            Ok("number"@)
        },
        Val::String(_) => Ok("string"@),
        Val::Array(_) => Ok("array"@),
        Val::Object(_) => Ok("object"@),
        Val::Function(_) => Ok("function"@),
        _ => Ok("undefined"@),
    }
}

/// What `$type` gives.
pub open spec fn type_of(a: Seq<Val>) -> Result<Val, Seq<char>> {
    if a.len() == 0 {
        Err("T0410"@)
    } else if a[0] is Undefined {
        Ok(Val::Undefined)
    } else {
        match name_of_type(a[0]) {
            Ok(n) => Ok(Val::String(n)),
            Err(e) => Err(e),
        }
    }
}

/// `$type(value)`: the name of a value's type.
pub fn fn_type_of(args: &[Value], _focus: &Value) -> (r: JsonataResult)
    ensures
        out(r) == type_of(vals(args@)),
        args@.len() > 0 && r is Err ==> args@[0]@ is Number && r->Err_0.value@ == number_text(args@[0]@->Number_0),
{
    if args.len() == 0 {
        return fail("T0410", "$type: argument is required");
    }
    assert(vals(args@)[0] == args@[0]@);
    let name = match &args[0] {
        Value::Undefined => {
            return Ok(Value::Undefined);
        },
        Value::Null => "null",
        Value::Bool(_) => "boolean",
        Value::Number(n) => {
            if n.is_infinite() {
                return Err(
                    JsonataError::with_code("D1001").with_value(text_of(number_chars(n).as_slice())),
                );
            }
            if n.is_nan() {
                "object"
            } else {
                "number"
            }
        },
        Value::String(_) => "string",
        Value::Array(_) => "array",
        Value::Object(_) => "object",
        Value::Function(_) => "function",
        _ => "undefined",
    };
    Ok(Value::String(name.to_owned()))
}

/// What `$assert` gives.
pub open spec fn assertion(a: Seq<Val>) -> Result<Val, Seq<char>> {
    if a.len() == 0 || a.len() > 2 {
        Err("T0410"@)
    } else {
        match a[0] {
            Val::Bool(b) => if b {
                Ok(Val::Undefined)
            } else {
                Err("D3141"@)
            },
            _ => Err("T0410"@),
        }
    }
}

/// The message with which `$assert` fails.
pub open spec fn assertion_message(a: Seq<Val>) -> Seq<char> {
    if a.len() == 2 {
        match a[1] {
            Val::String(s) => s,
            _ => "assertion failed"@,
        }
    } else {
        "assertion failed"@
    }
}

/// `$assert(condition, message)`: fail with the message unless the condition
/// holds.
pub fn fn_assert(args: &[Value], _focus: &Value) -> (r: JsonataResult)
    ensures
        out(r) == assertion(vals(args@)),
        assertion(vals(args@)) == Err::<Val, Seq<char>>("D3141"@) && 1 <= args@.len() <= 2 && args@[0]@ is Bool
            ==> r->Err_0.message@ == assertion_message(vals(args@)),
{
    if args.len() == 0 {
        return fail("T0410", "$assert: argument is required");
    }
    if args.len() > 2 {
        return fail("T0410", "$assert: takes at most 2 arguments");
    }
    assert(vals(args@)[0] == args@[0]@);
    match &args[0] {
        Value::Bool(b) => {
            if *b {
                return Ok(Value::Undefined);
            }
            if args.len() > 1 {
                assert(vals(args@)[1] == args@[1]@);
                match &args[1] {
                    Value::String(s) => {
                        return fail("D3141", s.as_str());
                    },
                    _ => {},
                }
            }
            fail("D3141", "assertion failed")
        },
        _ => fail("T0410", "$assert: first argument must be a boolean"),
    }
}

} // verus!
