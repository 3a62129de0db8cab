//! `$eval`: evaluate an expression that is text.
use vstd::prelude::*;

use crate::error::{bare_fault, fail, fault, out, told, Fault, JsonataError, JsonataResult};
use crate::expression::{compiled, Expression};
use crate::parser::ast::{Node, NodeId};
use crate::parser::{readable, readings, Readings};
use crate::text::{chars_of, push_text};
use crate::value::{vals, Val, Value};

verus! {

/// How deep evaluations of text may be nested.
pub const MAX_EVAL_DEPTH: u32 = 5;

/// Whether the evaluator may let a nested evaluation begin, or refuse it with
/// an error.
pub open spec fn may_enter<N: Fn(u32) -> Result<(), JsonataError>>(
    enter: N,
    depth: u32,
    r: Result<(), JsonataError>,
) -> bool {
    enter.ensures((depth,), r)
}

/// Whether the evaluator may give an outcome for an expression on a context
/// item.
pub open spec fn may_run<R: Fn(&Expression, &Value) -> JsonataResult>(
    run: R,
    src: Seq<char>,
    reads: Readings,
    ctx: Val,
    r: Result<Val, JsonataError>,
) -> bool {
    exists|e: &Expression, c: &Value, a: JsonataResult| #[trigger]
        run.ensures((e, c), a) && compiled(src, reads) == Ok::<(Seq<Node>, NodeId), Fault>((e.arena.all(), e.root)) && c@ == ctx
            && r == told(a)
}

/// The context item of a nested evaluation: the second argument, or else that
/// of the call.
pub open spec fn eval_context(a: Seq<Val>, focus: Val) -> Val {
    if a.len() >= 2 && !(a[1] is Undefined) {
        a[1]
    } else {
        focus
    }
}

/// Whether an error says that a text is no expression, for a fault in it.
pub open spec fn invalid(e: JsonataError, f: Fault) -> bool {
    &&& fault(e) == bare_fault("D3120"@)
    &&& exists|why: Seq<char>| e.message@ == "$eval: invalid expression: "@ + #[trigger] because(f.code, why)
}

/// A fault in words: its code and a sentence.
pub open spec fn because(code: Seq<char>, why: Seq<char>) -> Seq<char> {
    code + ": "@ + why
}

/// Whether `$eval` may make a result of what came of evaluating: the value, or
/// an error that says what went wrong.
pub open spec fn nested(a: Result<Val, JsonataError>, r: Result<Val, JsonataError>) -> bool {
    match a {
        Ok(v) => r == Ok::<Val, JsonataError>(v),
        Err(inner) => match r {
            Ok(_) => false,
            Err(e) => {
                &&& fault(e) == bare_fault("D3121"@)
                &&& e.message@ == "unable to evaluate expression: "@ + inner.message@
            },
        },
    }
}

/// Whether `$eval` may give a result for a text that it was let evaluate.
pub open spec fn may_eval<R: Fn(&Expression, &Value) -> JsonataResult>(
    run: R,
    src: Seq<char>,
    reads: Readings,
    ctx: Val,
    r: Result<Val, JsonataError>,
) -> bool {
    match compiled(src, reads) {
        Err(f) => match r {
            Ok(_) => false,
            Err(e) => invalid(e, f),
        },
        Ok(_) => exists|a: Result<Val, JsonataError>| #[trigger] may_run(run, src, reads, ctx, a) && nested(a, r),
    }
}

/// Whether `$eval` may give a result for a text.
pub open spec fn may_give<
    N: Fn(u32) -> Result<(), JsonataError>,
    R: Fn(&Expression, &Value) -> JsonataResult,
>(enter: N, run: R, src: Seq<char>, reads: Readings, ctx: Val, r: Result<Val, JsonataError>) -> bool {
    exists|a: Result<(), JsonataError>| #[trigger]
        may_enter(enter, MAX_EVAL_DEPTH, a) && match a {
            Ok(_) => may_eval(run, src, reads, ctx, r),
            Err(e) => r == Err::<Val, JsonataError>(e),
        }
}

/// Compile a text and have it evaluated.
fn eval_text<G: Fn(&str) -> Result<usize, JsonataError>, R: Fn(&Expression, &Value) -> JsonataResult>(
    src: &str,
    ctx: &Value,
    read: &G,
    run: &R,
) -> (r: JsonataResult)
    requires
        readable(*read),
        forall|e: &Expression, c: &Value| #[trigger] run.requires((e, c)),
    ensures
        may_eval(*run, src@, readings(*read), ctx@, told(r)),
{
    let expr = match Expression::compile(src, read) {
        Ok(e) => e,
        Err(e) => {
            let mut why: Vec<char> = chars_of(e.code);
            push_text(&mut why, ": ");
            push_text(&mut why, e.message.as_str());
            assert(why@ =~= because(e.code@, e.message@));
            let r = JsonataError::ending("D3120", "$eval: invalid expression: ", why.as_slice());
            assert(r.message@ == "$eval: invalid expression: "@ + because(fault(e).code, e.message@));
            assert(invalid(r, fault(e)));
            return Err(r);
        },
    };
    let a = run(&expr, ctx);
    assert(run.ensures((&expr, ctx), a));
    assert(may_run(*run, src@, readings(*read), ctx@, told(a)));
    match a {
        Ok(v) => Ok(v),
        Err(e) => Err(
            JsonataError::ending(
                "D3121",
                "unable to evaluate expression: ",
                chars_of(e.message.as_str()).as_slice(),
            ),
        ),
    }
}

/// `$eval(text, context?)`: what an expression gives. The evaluator is asked to
/// read the inside of signatures, to enter a nested evaluation, to run it, and is told when it is left.
pub fn fn_eval<
    G: Fn(&str) -> Result<usize, JsonataError>,
    N: Fn(u32) -> Result<(), JsonataError>,
    R: Fn(&Expression, &Value) -> JsonataResult,
    L: Fn() -> (),
>(args: &[Value], focus: &Value, read: &G, enter: &N, run: &R, leave: &L) -> (r: JsonataResult)
    requires
        readable(*read),
        forall|d: u32| #[trigger] enter.requires((d,)),
        forall|e: &Expression, c: &Value| #[trigger] run.requires((e, c)),
        leave.requires(()),
    ensures
        ({
            let a = vals(args@);
            if a.len() == 0 {
                out(r) == Err::<Val, Seq<char>>("D3006"@)
            } else {
                match a[0] {
                    Val::Undefined => out(r) == Ok::<Val, Seq<char>>(Val::Undefined),
                    Val::String(src) => may_give(*enter, *run, src, readings(*read), eval_context(a, focus@), told(r)),
                    _ => out(r) == Err::<Val, Seq<char>>("T0410"@),
                }
            }
        }),
{
    if args.len() == 0 {
        return fail("D3006", "$eval: requires at least 1 argument");
    }
    let ghost a = vals(args@);
    assert(a[0] == args@[0]@);
    if args[0].is_undefined() {
        return Ok(Value::Undefined);
    }
    let src = match &args[0] {
        Value::String(s) => s,
        _ => {
            return fail("T0410", "$eval: argument must be a string");
        },
    };
    let entered = enter(MAX_EVAL_DEPTH);
    let ghost answer = entered;
    assert(may_enter(*enter, MAX_EVAL_DEPTH, answer));
    match entered {
        Ok(_) => {},
        Err(e) => {
            return Err(e);
        },
    }
    let mut ctx: &Value = focus;
    if args.len() >= 2 {
        assert(a[1] == args@[1]@);
        if !args[1].is_undefined() {
            ctx = &args[1];
        }
    }
    let r = eval_text(src.as_str(), ctx, read, run);
    leave();
    r
}

} // verus!
