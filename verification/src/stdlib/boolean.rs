//! Truth values: `$boolean`, `$not` and `$exists`.
use vstd::prelude::*;

use crate::error::{fail, out, JsonataResult};
use crate::value::{truth, untrue, vals, Val, Value};

verus! {

/// What `$boolean` gives: only the first argument counts.
pub open spec fn boolean(a: Seq<Val>, focus: Val) -> Result<Val, Seq<char>> {
    let v = if a.len() == 0 {
        focus
    } else {
        a[0]
    };
    if v is Undefined {
        Ok(Val::Undefined)
    } else {
        match truth(v) {
            Ok(b) => Ok(Val::Bool(b)),
            Err(e) => Err(e),
        }
    }
}

/// `$boolean(value)`: whether a value counts as true.
pub fn fn_boolean(args: &[Value], focus: &Value) -> (r: JsonataResult)
    ensures
        out(r) == boolean(vals(args@), focus@),
        r matches Err(e) ==> e.value@ == untrue(
            if args@.len() == 0 {
                focus@
            } else {
                args@[0]@
            },
        ),
{
    if args.len() > 0 {
        assert(vals(args@)[0] == args@[0]@);
    }
    let v = if args.len() == 0 {
        focus
    } else {
        &args[0]
    };
    if v.is_undefined() {
        return Ok(Value::Undefined);
    }
    match v.to_boolean() {
        Ok(b) => Ok(Value::Bool(b)),
        Err(e) => Err(e),
    }
}

/// What `$not` gives.
pub open spec fn not(a: Seq<Val>) -> Result<Val, Seq<char>> {
    if a.len() == 0 {
        Err("T0410"@)
    } else if a[0] is Undefined {
        Ok(Val::Undefined)
    } else {
        match truth(a[0]) {
            Ok(b) => Ok(Val::Bool(!b)),
            Err(e) => Err(e),
        }
    }
}

/// `$not(value)`: whether a value counts as false.
pub fn fn_not(args: &[Value], _focus: &Value) -> (r: JsonataResult)
    ensures
        out(r) == not(vals(args@)),
        args@.len() > 0 && r is Err ==> r->Err_0.value@ == untrue(args@[0]@),
{
    if args.len() == 0 {
        return fail("T0410", "$not: argument is required");
    }
    assert(vals(args@)[0] == args@[0]@);
    if args[0].is_undefined() {
        return Ok(Value::Undefined);
    }
    match args[0].to_boolean() {
        Ok(b) => Ok(Value::Bool(!b)),
        Err(e) => Err(e),
    }
}

/// What `$exists` gives.
pub open spec fn exists_spec(a: Seq<Val>) -> Result<Val, Seq<char>> {
    if a.len() != 1 {
        Err("T0410"@)
    } else {
        Ok(Val::Bool(!(a[0] is Undefined)))
    }
}

/// `$exists(value)`: whether there is a value at all.
pub fn fn_exists(args: &[Value], _focus: &Value) -> (r: JsonataResult)
    ensures
        out(r) == exists_spec(vals(args@)),
{
    if args.len() == 0 {
        return fail("T0410", "$exists: argument is required");
    }
    if args.len() > 1 {
        return fail("T0410", "$exists: takes at most 1 argument");
    }
    assert(vals(args@)[0] == args@[0]@);
    Ok(Value::Bool(!args[0].is_undefined()))
}

/// `$not` is the opposite of `$boolean`, and agrees with it on errors.
pub proof fn law_not_negates_boolean(v: Val, focus: Val)
    ensures
        match boolean(seq![v], focus) {
            Ok(Val::Bool(b)) => not(seq![v]) == Ok::<Val, Seq<char>>(Val::Bool(!b)),
            other => not(seq![v]) == other,
        },
{
}

} // verus!
