//! Higher-order functions: `$map`, `$filter`, `$reduce`, `$each`, `$sift`,
//! `$sort` and `$single`.
use vstd::prelude::*;

use super::args::{arg, context_arg_code, context_code};
use super::hof_fast::{
    all_simple, analyze_lambda, analyze_mapped_call, callee, clauses_of, eval_binary_simple, eval_concat_template,
    exec_mapped_call, field_of, get_field, mapped_args, mapped_call, mapped_quick, named_call, seen, simple_body,
    simple_op, simple_result, lemma_well_made, template_text, well_made, Clause, Mapped, MappedCall, PredicateClause,
    Simple, SimpleLambda,
};
use super::host::{
    ask_call, ask_lookup, ask_poll, may_answer, may_find, may_return, open_to_all, poll_answer, Answer, Ask, Course,
    Plan,
};
use crate::error::{fail, out, JsonataError, JsonataResult};
use crate::number::Number;
use crate::parser::ast::{AstArena, BinaryOp, Node};
use crate::text::{chars_of, is_text};
use crate::try_sort::{
    arranged, asked, ends_with, follows, ints, lemma_sorts_retold, renamed, retold, sort_by_less, sorted_by, sorts,
    Saying,
};
use crate::value::{
    clone_all, collapse_sequence, items_of, lemma_text_order, lemma_text_transitive, ordered, out_bool, settled, texts,
    truth, vals, with_member, Fun, FunctionValue, ObjectMap, Sequence, Val, Value,
};

verus! {

// ── Arguments of a callback ──────────────────────────────────────────────────

/// How many arguments a callback takes: built-in functions get the item alone.
pub open spec fn arity(func: Fun) -> nat {
    match func {
        Fun::Lambda { params, .. } => params.len(),
        _ => 1,
    }
}

/// The arguments of a callback, as many as it takes.
pub open spec fn callback_args(func: Fun, item: Val, second: Val, third: Val) -> Seq<Val> {
    let n = arity(func);
    if n == 0 {
        Seq::empty()
    } else if n == 1 {
        seq![item]
    } else if n == 2 {
        seq![item, second]
    } else {
        seq![item, second, third]
    }
}

fn get_arity(func: &FunctionValue) -> (r: usize)
    ensures
        r == arity(func@),
{
    match func {
        FunctionValue::Lambda(l) => {
            assert(texts(l.params@).len() == l.params@.len());
            l.params.len()
        },
        _ => 1,
    }
}

fn hof_args(func: &FunctionValue, item: &Value, second: Value, third: &Value) -> (r: Vec<Value>)
    ensures
        vals(r@) == callback_args(func@, item@, second@, third@),
{
    let n: usize = get_arity(func);
    let mut r: Vec<Value> = Vec::new();
    if n >= 1 {
        let x = item.clone();
        r.push(x);
    }
    let ghost s = second@;
    if n >= 2 {
        r.push(second);
    }
    if n >= 3 {
        let x = third.clone();
        r.push(x);
    }
    assert(vals(r@) =~= callback_args(func@, item@, s, third@));
    r
}

/// What a callback gave, as an element of a result: a sequence becomes an
/// array, even of one.
pub open spec fn embedded(v: Val) -> Val {
    match v {
        Val::Sequence(s) => Val::Array(s),
        _ => v,
    }
}

fn embed_callback_result(v: Value) -> (r: Value)
    ensures
        r@ == embedded(v@),
{
    match v {
        Value::Sequence(s) => Value::Array(s.values),
        other => other,
    }
}

/// The simple body of a function that declares no signature.
pub open spec fn fast_body(nodes: Seq<Node>, func: Fun) -> Option<Simple> {
    match func {
        Fun::Lambda { params, body, typed, .. } => if typed {
            None
        } else {
            simple_body(nodes, params, body)
        },
        _ => None,
    }
}

fn try_fast_lambda(func: &FunctionValue, arena: &AstArena) -> (r: Option<SimpleLambda>)
    ensures
        seen(r) == fast_body(arena.all(), func@),
{
    match func {
        FunctionValue::Lambda(l) => if l.typed {
            None
        } else {
            analyze_lambda(&l.params, l.body, arena)
        },
        _ => None,
    }
}

/// How far a walk over items has come.
pub struct Walk {
    pub i: int,
    /// Whether the evaluation may go on with this item.
    pub polled: bool,
    pub kept: Seq<Val>,
    pub end: Option<Seq<char>>,
}

pub open spec fn walk_start() -> Walk {
    Walk { i: 0, polled: false, kept: Seq::empty(), end: None }
}

/// A walk that has come to its end with an error.
pub open spec fn stopped(w: Walk, code: Seq<char>) -> Walk {
    Walk { end: Some(code), ..w }
}

/// A walk that goes on to the next item, with a value kept if it is one.
pub open spec fn went_on(w: Walk, v: Val) -> Walk {
    Walk {
        i: w.i + 1,
        polled: false,
        kept: if v is Undefined {
            w.kept
        } else {
            w.kept.push(v)
        },
        end: None,
    }
}

/// A walk that goes on to the next item, after the outcome for this one.
pub open spec fn went_on_with(w: Walk, r: Result<Val, Seq<char>>) -> Walk {
    match r {
        Ok(v) => went_on(w, v),
        Err(e) => stopped(w, e),
    }
}

// ── $map ─────────────────────────────────────────────────────────────────────

/// How `$map` comes by the value for an item.
pub enum MapWay {
    /// It works the body out on its own.
    Simple(Simple),
    /// It makes the call that the body is, in the environment of the function.
    Lifted(Mapped, usize),
    /// It has the function called.
    Called,
}

/// What a simple body gives for an item, of those that `$map` works out.
pub open spec fn mapped_simply(s: Simple, item: Val) -> Result<Val, Seq<char>> {
    match s {
        Simple::FieldAccess { field } => Ok(field_of(item, field)),
        Simple::ConcatTemplate { pieces } => match template_text(item, pieces) {
            Ok(t) => Ok(Val::String(t)),
            Err(e) => Err(e),
        },
        _ => Ok(Val::Undefined),
    }
}

/// How `$map` comes by the values, with what the name of a call in the body
/// was found to be.
pub open spec fn map_way(nodes: Seq<Node>, func: Fun, found: Val) -> MapWay {
    match (fast_body(nodes, func), func) {
        (Some(Simple::FieldAccess { field }), _) => MapWay::Simple(Simple::FieldAccess { field }),
        (Some(Simple::ConcatTemplate { pieces }), _) => MapWay::Simple(Simple::ConcatTemplate { pieces }),
        (_, Fun::Lambda { params, body, closure, .. }) => if params.len() > 0 {
            match mapped_call(nodes, body, Some(params[0]), found) {
                Some(m) => MapWay::Lifted(m, closure),
                None => MapWay::Called,
            }
        } else {
            MapWay::Called
        },
        _ => MapWay::Called,
    }
}

/// What a function calls by name, and in what environment, if its body is such
/// a call.
pub open spec fn wanted_name(nodes: Seq<Node>, func: Fun) -> Option<(usize, Seq<char>)> {
    match func {
        Fun::Lambda { body, closure, .. } => match named_call(nodes, body) {
            Some((name, _)) => Some((closure, name)),
            None => None,
        },
        _ => None,
    }
}

/// Whether a value may be what a function calls by name.
pub open spec fn may_be_wanted<L: Fn(usize, &str) -> Option<Value>>(
    lookup: L,
    nodes: Seq<Node>,
    func: Fun,
    found: Val,
) -> bool {
    match wanted_name(nodes, func) {
        Some((scope, name)) => may_find(lookup, scope, name, found),
        None => true,
    }
}

/// How `$map` works.
pub open spec fn map_course(items: Seq<Val>, func: Fun, way: MapWay) -> Course<Walk> {
    Course {
        start: walk_start(),
        plan: |w: Walk|
            if w.end is Some {
                Plan::Finish(Err(w.end->0))
            } else if w.i >= items.len() {
                Plan::Finish(Ok(Val::Sequence(w.kept)))
            } else {
                Plan::Put(
                    match way {
                        MapWay::Simple(_) => Ask::Poll(w.i as usize),
                        MapWay::Lifted(m, scope) => if !w.polled {
                            Ask::Poll(w.i as usize)
                        } else {
                            Ask::Call {
                                func: m.func,
                                args: mapped_args(m, items[w.i]),
                                focus: items[w.i],
                                scope: Some(scope),
                            }
                        },
                        MapWay::Called => Ask::Call {
                            func,
                            args: callback_args(
                                func,
                                items[w.i],
                                Val::Number(Number::of_int(w.i)),
                                Val::Array(items),
                            ),
                            focus: items[w.i],
                            scope: None,
                        },
                    },
                )
            },
        heed: |w: Walk, a: Answer|
            match (a, way) {
                (Err(e), _) => stopped(w, e),
                (Ok(_), MapWay::Simple(s)) => went_on_with(w, mapped_simply(s, items[w.i])),
                (Ok(v), MapWay::Lifted(m, _)) => if w.polled {
                    went_on(w, embedded(v))
                } else {
                    match mapped_quick(m, items[w.i]) {
                        Some(Ok(x)) => went_on(w, embedded(x)),
                        Some(Err(e)) => stopped(w, e),
                        None => Walk { polled: true, ..w },
                    }
                },
                (Ok(v), MapWay::Called) => went_on(w, embedded(v)),
            },
    }
}

fn push_kept(kept: &mut Vec<Value>, v: Value)
    ensures
        vals(final(kept)@) == (if v@ is Undefined {
            vals(old(kept)@)
        } else {
            vals(old(kept)@).push(v@)
        }),
{
    if !v.is_undefined() {
        let ghost before = kept@;
        let ghost x = v@;
        kept.push(v);
        assert(vals(kept@) =~= vals(before).push(x));
    }
}

fn map_simply(fast: &SimpleLambda, item: &Value) -> (r: JsonataResult)
    ensures
        out(r) == mapped_simply(fast@, item@),
{
    match fast {
        SimpleLambda::FieldAccess { field } => Ok(get_field(item, field.as_str())),
        SimpleLambda::ConcatTemplate { pieces } => eval_concat_template(item, pieces),
        _ => Ok(Value::Undefined),
    }
}

fn map_fast<
    C: Fn(&FunctionValue, &Vec<Value>, &Value, Option<usize>) -> JsonataResult,
    P: Fn(usize) -> Result<(), JsonataError>,
>(items: &Vec<Value>, func: &FunctionValue, fast: &SimpleLambda, call: &C, poll: &P) -> (r: JsonataResult)
    requires
        open_to_all(*call, *poll),
    ensures
        map_course(vals(items@), func@, MapWay::Simple(fast@)).ends(*call, *poll, out(r)),
{
    let ghost all = vals(items@);
    let ghost course = map_course(all, func@, MapWay::Simple(fast@));
    let ghost mut answers: Seq<Answer> = Seq::empty();
    proof {
        course.lemma_start(*call, *poll);
    }
    let mut kept: Vec<Value> = Vec::new();
    assert(vals(kept@) =~= Seq::empty());
    let mut i: usize = 0;
    while i < items.len()
        invariant
            i <= items.len(),
            all == vals(items@),
            open_to_all(*call, *poll),
            course == map_course(all, func@, MapWay::Simple(fast@)),
            course.heard(*call, *poll, answers),
            course.after(answers) == (Walk { i: i as int, polled: false, kept: vals(kept@), end: None }),
        decreases items.len() - i,
    {
        assert(all[i as int] == items@[i as int]@);
        let ghost w = course.after(answers);
        let p = ask_poll(poll, i);
        proof {
            let ask = Ask::Poll(i);
            assert(course.next(answers) == Plan::Put(ask));
            course.lemma_heard(*call, *poll, answers, ask, poll_answer(p));
            answers = answers.push(poll_answer(p));
        }
        match p {
            Ok(_) => {},
            Err(e) => {
                assert(course.after(answers) == stopped(w, e.code@));
                assert(course.next(answers) == Plan::Finish(Err::<Val, Seq<char>>(e.code@)));
                return Err(e);
            },
        }
        let v = map_simply(fast, &items[i]);
        assert(course.after(answers) == went_on_with(w, out(v)));
        match v {
            Ok(x) => {
                push_kept(&mut kept, x);
            },
            Err(e) => {
                assert(course.next(answers) == Plan::Finish(Err::<Val, Seq<char>>(e.code@)));
                return Err(e);
            },
        }
        i = i + 1;
    }
    assert(course.next(answers) == Plan::Finish(Ok::<Val, Seq<char>>(Val::Sequence(vals(kept@)))));
    Ok(Value::Sequence(Sequence::with_items(kept)))
}

fn map_lifted<
    C: Fn(&FunctionValue, &Vec<Value>, &Value, Option<usize>) -> JsonataResult,
    P: Fn(usize) -> Result<(), JsonataError>,
>(items: &Vec<Value>, func: &FunctionValue, mc: &MappedCall, scope: usize, call: &C, poll: &P) -> (r: JsonataResult)
    requires
        open_to_all(*call, *poll),
    ensures
        map_course(vals(items@), func@, MapWay::Lifted(mc@, scope)).ends(*call, *poll, out(r)),
{
    let ghost all = vals(items@);
    let ghost course = map_course(all, func@, MapWay::Lifted(mc@, scope));
    let ghost mut answers: Seq<Answer> = Seq::empty();
    proof {
        course.lemma_start(*call, *poll);
    }
    let mut kept: Vec<Value> = Vec::new();
    assert(vals(kept@) =~= Seq::empty());
    let mut i: usize = 0;
    while i < items.len()
        invariant
            i <= items.len(),
            all == vals(items@),
            open_to_all(*call, *poll),
            course == map_course(all, func@, MapWay::Lifted(mc@, scope)),
            course.heard(*call, *poll, answers),
            course.after(answers) == (Walk { i: i as int, polled: false, kept: vals(kept@), end: None }),
        decreases items.len() - i,
    {
        assert(all[i as int] == items@[i as int]@);
        let ghost w = course.after(answers);
        let p = ask_poll(poll, i);
        proof {
            let ask = Ask::Poll(i);
            assert(course.next(answers) == Plan::Put(ask));
            course.lemma_heard(*call, *poll, answers, ask, poll_answer(p));
            answers = answers.push(poll_answer(p));
        }
        match p {
            Ok(_) => {},
            Err(e) => {
                assert(course.after(answers) == stopped(w, e.code@));
                assert(course.next(answers) == Plan::Finish(Err::<Val, Seq<char>>(e.code@)));
                return Err(e);
            },
        }
        let v = exec_mapped_call(mc, &items[i], scope, call);
        proof {
            if mapped_quick(mc@, all[i as int]) is None {
                let ready = Walk { polled: true, ..w };
                assert(course.after(answers) == ready);
                let ask = Ask::Call {
                    func: mc@.func,
                    args: mapped_args(mc@, all[i as int]),
                    focus: all[i as int],
                    scope: Some(scope),
                };
                assert(course.next(answers) == Plan::Put(ask));
                course.lemma_heard(*call, *poll, answers, ask, out(v));
                answers = answers.push(out(v));
                if v is Err {
                    assert(course.after(answers) == stopped(ready, (out(v))->Err_0));
                } else {
                    assert(course.after(answers) == went_on(ready, embedded((out(v))->Ok_0)));
                }
            } else if v is Err {
                assert(course.after(answers) == stopped(w, (out(v))->Err_0));
            } else {
                assert(course.after(answers) == went_on(w, embedded((out(v))->Ok_0)));
            }
        }
        match v {
            Ok(x) => {
                push_kept(&mut kept, embed_callback_result(x));
            },
            Err(e) => {
                assert(course.next(answers) == Plan::Finish(Err::<Val, Seq<char>>(e.code@)));
                return Err(e);
            },
        }
        i = i + 1;
    }
    assert(course.next(answers) == Plan::Finish(Ok::<Val, Seq<char>>(Val::Sequence(vals(kept@)))));
    Ok(Value::Sequence(Sequence::with_items(kept)))
}

fn map_called<
    C: Fn(&FunctionValue, &Vec<Value>, &Value, Option<usize>) -> JsonataResult,
    P: Fn(usize) -> Result<(), JsonataError>,
>(items: &Vec<Value>, func: &FunctionValue, call: &C, poll: &P) -> (r: JsonataResult)
    requires
        open_to_all(*call, *poll),
    ensures
        map_course(vals(items@), func@, MapWay::Called).ends(*call, *poll, out(r)),
{
    let ghost all = vals(items@);
    let ghost course = map_course(all, func@, MapWay::Called);
    let ghost mut answers: Seq<Answer> = Seq::empty();
    proof {
        course.lemma_start(*call, *poll);
    }
    let whole = Value::Array(clone_all(items));
    let mut kept: Vec<Value> = Vec::new();
    assert(vals(kept@) =~= Seq::empty());
    let mut i: usize = 0;
    while i < items.len()
        invariant
            i <= items.len(),
            all == vals(items@),
            whole@ == Val::Array(all),
            open_to_all(*call, *poll),
            course == map_course(all, func@, MapWay::Called),
            course.heard(*call, *poll, answers),
            course.after(answers) == (Walk { i: i as int, polled: false, kept: vals(kept@), end: None }),
        decreases items.len() - i,
    {
        assert(all[i as int] == items@[i as int]@);
        let ghost w = course.after(answers);
        let args = hof_args(func, &items[i], Value::Number(Number::from_usize(i)), &whole);
        let v = ask_call(call, func, &args, &items[i], None);
        proof {
            let ask = Ask::Call { func: func@, args: vals(args@), focus: all[i as int], scope: None };
            assert(course.next(answers) == Plan::Put(ask));
            course.lemma_heard(*call, *poll, answers, ask, out(v));
            answers = answers.push(out(v));
        }
        match v {
            Ok(x) => {
                assert(course.after(answers) == went_on(w, embedded(x@)));
                push_kept(&mut kept, embed_callback_result(x));
            },
            Err(e) => {
                assert(course.after(answers) == stopped(w, e.code@));
                assert(course.next(answers) == Plan::Finish(Err::<Val, Seq<char>>(e.code@)));
                return Err(e);
            },
        }
        i = i + 1;
    }
    assert(course.next(answers) == Plan::Finish(Ok::<Val, Seq<char>>(Val::Sequence(vals(kept@)))));
    Ok(Value::Sequence(Sequence::with_items(kept)))
}

/// The items and the function of `$map`, `$filter` and `$reduce`.
pub open spec fn items_and_function(a: Seq<Val>) -> Result<Option<(Seq<Val>, Fun)>, Seq<char>> {
    if a.len() < 2 {
        Err("T0410"@)
    } else if a[0] is Undefined {
        Ok(None)
    } else {
        match a[1] {
            Val::Function(f) => Ok(Some((items_of(a[0]), f))),
            _ => Err("T0410"@),
        }
    }
}

pub open spec fn out_items(r: Result<Option<(Vec<Value>, FunctionValue)>, JsonataError>) -> Result<
    Option<(Seq<Val>, Fun)>,
    Seq<char>,
> {
    match r {
        Ok(Some((v, f))) => Ok(Some((vals(v@), f@))),
        Ok(None) => Ok(None),
        Err(e) => Err(e.code@),
    }
}

fn get_items_and_function(args: &[Value], name: &str) -> (r: Result<
    Option<(Vec<Value>, FunctionValue)>,
    JsonataError,
>)
    ensures
        out_items(r) == items_and_function(vals(args@)),
{
    if args.len() < 2 {
        return Err(JsonataError::about("T0410", name, &[], ": requires 2 arguments"));
    }
    assert(vals(args@)[0] == args@[0]@);
    assert(vals(args@)[1] == args@[1]@);
    if args[0].is_undefined() {
        return Ok(None);
    }
    let items = args[0].coerce_to_array();
    match &args[1] {
        Value::Function(f) => Ok(Some((items, f.clone()))),
        _ => Err(JsonataError::about("T0410", name, &[], ": argument must be a function")),
    }
}

/// Whether a result is one that `$map` may come to.
pub open spec fn map_ends<
    C: Fn(&FunctionValue, &Vec<Value>, &Value, Option<usize>) -> JsonataResult,
    P: Fn(usize) -> Result<(), JsonataError>,
    L: Fn(usize, &str) -> Option<Value>,
>(nodes: Seq<Node>, items: Seq<Val>, func: Fun, call: C, poll: P, lookup: L, r: Result<Val, Seq<char>>) -> bool {
    exists|found: Val| #[trigger]
        may_be_wanted(lookup, nodes, func, found) && map_course(items, func, map_way(nodes, func, found)).ends(
            call,
            poll,
            r,
        )
}

/// `$map(array, function)`: what a function gives for each item.
pub fn fn_map<
    C: Fn(&FunctionValue, &Vec<Value>, &Value, Option<usize>) -> JsonataResult,
    P: Fn(usize) -> Result<(), JsonataError>,
    L: Fn(usize, &str) -> Option<Value>,
>(args: &[Value], _focus: &Value, arena: &AstArena, call: &C, poll: &P, lookup: &L) -> (r: JsonataResult)
    requires
        open_to_all(*call, *poll),
        forall|s: usize, n: &str| #[trigger] lookup.requires((s, n)),
    ensures
        match items_and_function(vals(args@)) {
            Err(e) => out(r) == Err::<Val, Seq<char>>(e),
            Ok(None) => out(r) == Ok::<Val, Seq<char>>(Val::Undefined),
            Ok(Some((items, func))) => map_ends(arena.all(), items, func, *call, *poll, *lookup, out(r)),
        },
{
    let (items, func) = match get_items_and_function(args, "$map") {
        Err(e) => {
            return Err(e);
        },
        Ok(None) => {
            return Ok(Value::Undefined);
        },
        Ok(Some(p)) => p,
    };
    let ghost nodes = arena.all();
    let mut found = Value::Undefined;
    if let FunctionValue::Lambda(l) = &func {
        if let Some((name, _ids)) = callee(l.body, arena) {
            found = ask_lookup(lookup, l.closure, name.as_str());
        }
    }
    assert(may_be_wanted(*lookup, nodes, func@, found@));
    let ghost way = map_way(nodes, func@, found@);
    match try_fast_lambda(&func, arena) {
        Some(fast) => {
            let direct: bool = match &fast {
                SimpleLambda::FieldAccess { .. } => true,
                SimpleLambda::ConcatTemplate { .. } => true,
                _ => false,
            };
            if direct {
                assert(way == MapWay::Simple(fast@));
                return map_fast(&items, &func, &fast, call, poll);
            }
        },
        None => {},
    }
    if let FunctionValue::Lambda(l) = &func {
        if l.params.len() > 0 {
            assert(texts(l.params@)[0] == l.params@[0]@);
            if let Some(mc) = analyze_mapped_call(l.body, arena, Some(l.params[0].as_str()), &found) {
                assert(way == MapWay::Lifted(mc@, l.closure));
                return map_lifted(&items, &func, &mc, l.closure, call, poll);
            }
        }
    }
    assert(way == MapWay::Called);
    map_called(&items, &func, call, poll)
}

// ── Predicates ───────────────────────────────────────────────────────────────

/// Whether an outcome holds.
pub open spec fn held(r: Result<Val, Seq<char>>) -> Result<bool, Seq<char>> {
    match r {
        Err(e) => Err(e),
        Ok(v) => truth(v),
    }
}

fn holds(r: JsonataResult) -> (b: Result<bool, JsonataError>)
    ensures
        out_bool(b) == held(out(r)),
{
    match r {
        Err(e) => Err(e),
        Ok(v) => v.to_boolean(),
    }
}

/// Whether all clauses hold of an item, or any of them; those after the one
/// that decides are not looked at.
pub open spec fn clauses_held(item: Val, clauses: Seq<Clause>, all: bool, from: int) -> Result<bool, Seq<char>>
    decreases clauses.len() - from,
{
    if from < 0 || from >= clauses.len() {
        Ok(all)
    } else {
        match held(simple_result(field_of(item, clauses[from].field), clauses[from].op, clauses[from].literal)) {
            Err(e) => Err(e),
            Ok(b) => if b != all {
                Ok(b)
            } else {
                clauses_held(item, clauses, all, from + 1)
            },
        }
    }
}

/// Whether a body that is a predicate holds of an item.
pub open spec fn held_simply(s: Simple, item: Val) -> Result<bool, Seq<char>> {
    match s {
        Simple::FieldPredicate { field, op, literal } => held(simple_result(field_of(item, field), op, literal)),
        Simple::TwoFieldPredicate { field1, op, field2 } => held(
            simple_result(field_of(item, field1), op, field_of(item, field2)),
        ),
        Simple::CompoundPredicate { clauses, combiner } => clauses_held(item, clauses, combiner == BinaryOp::And, 0),
        _ => Ok(false),
    }
}

fn clauses_hold(item: &Value, clauses: &Vec<PredicateClause>, all: bool) -> (r: Result<bool, JsonataError>)
    requires
        all_simple(clauses_of(clauses@)),
    ensures
        out_bool(r) == clauses_held(item@, clauses_of(clauses@), all, 0),
{
    let ghost whole = clauses_of(clauses@);
    let mut i: usize = 0;
    while i < clauses.len()
        invariant
            i <= clauses.len(),
            whole == clauses_of(clauses@),
            all_simple(whole),
            clauses_held(item@, whole, all, 0) == clauses_held(item@, whole, all, i as int),
        decreases clauses.len() - i,
    {
        assert(whole[i as int] == clauses@[i as int]@);
        let field = get_field(item, clauses[i].field.as_str());
        let b = holds(eval_binary_simple(&field, clauses[i].op, &clauses[i].literal));
        match b {
            Err(e) => {
                return Err(e);
            },
            Ok(b) => {
                if b != all {
                    return Ok(b);
                }
            },
        }
        i = i + 1;
    }
    Ok(all)
}

fn holds_simply(fast: &SimpleLambda, item: &Value) -> (r: Result<bool, JsonataError>)
    requires
        well_made(fast@),
    ensures
        out_bool(r) == held_simply(fast@, item@),
{
    match fast {
        SimpleLambda::FieldPredicate { field, op, literal } => {
            let x = get_field(item, field.as_str());
            holds(eval_binary_simple(&x, *op, literal))
        },
        SimpleLambda::TwoFieldPredicate { field1, op, field2 } => {
            let x = get_field(item, field1.as_str());
            let y = get_field(item, field2.as_str());
            holds(eval_binary_simple(&x, *op, &y))
        },
        SimpleLambda::CompoundPredicate { clauses, combiner } => clauses_hold(
            item,
            clauses,
            *combiner == BinaryOp::And,
        ),
        _ => Ok(false),
    }
}

/// A walk after a predicate on the item it stood at: one that holds keeps it.
pub open spec fn took(w: Walk, item: Val, b: Result<bool, Seq<char>>) -> Walk {
    match b {
        Err(e) => stopped(w, e),
        Ok(keep) => Walk {
            i: w.i + 1,
            polled: false,
            kept: if keep {
                w.kept.push(item)
            } else {
                w.kept
            },
            end: None,
        },
    }
}

/// What a walk that tries a predicate asks at an item.
pub open spec fn predicate_ask(items: Seq<Val>, func: Fun, way: Option<Simple>, i: int) -> Ask {
    match way {
        Some(_) => Ask::Poll(i as usize),
        None => Ask::Call {
            func,
            args: callback_args(func, items[i], Val::Number(Number::of_int(i)), Val::Array(items)),
            focus: items[i],
            scope: None,
        },
    }
}

/// What an answer at an item says of a predicate.
pub open spec fn predicate_answer(way: Option<Simple>, item: Val, a: Answer) -> Result<bool, Seq<char>> {
    match (a, way) {
        (Err(e), _) => Err(e),
        (Ok(_), Some(s)) => held_simply(s, item),
        (Ok(v), None) => truth(v),
    }
}

/// Ask of an item whether a predicate holds.
fn try_predicate<
    C: Fn(&FunctionValue, &Vec<Value>, &Value, Option<usize>) -> JsonataResult,
    P: Fn(usize) -> Result<(), JsonataError>,
>(
    items: &Vec<Value>,
    whole: &Value,
    func: &FunctionValue,
    way: &Option<SimpleLambda>,
    i: usize,
    call: &C,
    poll: &P,
) -> (r: (Result<bool, JsonataError>, Ghost<Answer>))
    requires
        i < items.len(),
        whole@ == Val::Array(vals(items@)),
        open_to_all(*call, *poll),
        match seen(*way) {
            Some(s) => well_made(s),
            None => true,
        },
    ensures
        may_answer(*call, *poll, predicate_ask(vals(items@), func@, seen(*way), i as int), (r.1)@),
        out_bool(r.0) == predicate_answer(seen(*way), vals(items@)[i as int], (r.1)@),
{
    assert(vals(items@)[i as int] == items@[i as int]@);
    match way {
        Some(fast) => {
            let p = ask_poll(poll, i);
            let ghost a = poll_answer(p);
            match p {
                Ok(_) => (holds_simply(fast, &items[i]), Ghost(a)),
                Err(e) => (Err(e), Ghost(a)),
            }
        },
        None => {
            let args = hof_args(func, &items[i], Value::Number(Number::from_usize(i)), whole);
            let v = ask_call(call, func, &args, &items[i], None);
            let ghost a = out(v);
            (holds(v), Ghost(a))
        },
    }
}

// ── $filter ──────────────────────────────────────────────────────────────────

/// How `$filter` works, with a body that it tries on its own if there is one.
pub open spec fn filter_course(items: Seq<Val>, func: Fun, way: Option<Simple>) -> Course<Walk> {
    Course {
        start: walk_start(),
        plan: |w: Walk|
            if w.end is Some {
                Plan::Finish(Err(w.end->0))
            } else if w.i >= items.len() {
                Plan::Finish(Ok(Val::Sequence(w.kept)))
            } else {
                Plan::Put(predicate_ask(items, func, way, w.i))
            },
        heed: |w: Walk, a: Answer| took(w, items[w.i], predicate_answer(way, items[w.i], a)),
    }
}

/// The body that `$filter` tries on its own, if it is a predicate.
pub open spec fn filter_way(nodes: Seq<Node>, func: Fun) -> Option<Simple> {
    match fast_body(nodes, func) {
        Some(s) => if s is FieldPredicate || s is TwoFieldPredicate || s is CompoundPredicate {
            Some(s)
        } else {
            None
        },
        None => None,
    }
}

/// The operators of a body that is tried can be applied.
proof fn lemma_fast_body(nodes: Seq<Node>, func: Fun)
    ensures
        match fast_body(nodes, func) {
            Some(s) => well_made(s),
            None => true,
        },
{
    match func {
        Fun::Lambda { params, body, .. } => {
            lemma_well_made(nodes, params, body);
        },
        _ => {},
    }
}

/// `$filter(array, function)`: the items for which a function holds.
pub fn fn_filter<
    C: Fn(&FunctionValue, &Vec<Value>, &Value, Option<usize>) -> JsonataResult,
    P: Fn(usize) -> Result<(), JsonataError>,
>(args: &[Value], _focus: &Value, arena: &AstArena, call: &C, poll: &P) -> (r: JsonataResult)
    requires
        open_to_all(*call, *poll),
    ensures
        match items_and_function(vals(args@)) {
            Err(e) => out(r) == Err::<Val, Seq<char>>(e),
            Ok(None) => out(r) == Ok::<Val, Seq<char>>(Val::Undefined),
            Ok(Some((items, func))) => filter_course(items, func, filter_way(arena.all(), func)).ends(
                *call,
                *poll,
                out(r),
            ),
        },
{
    let (items, func) = match get_items_and_function(args, "$filter") {
        Err(e) => {
            return Err(e);
        },
        Ok(None) => {
            return Ok(Value::Undefined);
        },
        Ok(Some(p)) => p,
    };
    proof {
        lemma_fast_body(arena.all(), func@);
    }
    let way: Option<SimpleLambda> = match try_fast_lambda(&func, arena) {
        Some(s) => match s {
            SimpleLambda::FieldPredicate { .. } => Some(s),
            SimpleLambda::TwoFieldPredicate { .. } => Some(s),
            SimpleLambda::CompoundPredicate { .. } => Some(s),
            _ => None,
        },
        None => None,
    };
    assert(seen(way) == filter_way(arena.all(), func@));
    let whole = Value::Array(clone_all(&items));
    let ghost all = vals(items@);
    let ghost course = filter_course(all, func@, seen(way));
    let ghost mut answers: Seq<Answer> = Seq::empty();
    proof {
        course.lemma_start(*call, *poll);
    }
    let mut kept: Vec<Value> = Vec::new();
    assert(vals(kept@) =~= Seq::empty());
    let mut i: usize = 0;
    while i < items.len()
        invariant
            i <= items.len(),
            all == vals(items@),
            whole@ == Val::Array(all),
            open_to_all(*call, *poll),
            match seen(way) {
                Some(s) => well_made(s),
                None => true,
            },
            items_and_function(vals(args@)) == Ok::<Option<(Seq<Val>, Fun)>, Seq<char>>(Some((all, func@))),
            seen(way) == filter_way(arena.all(), func@),
            course == filter_course(all, func@, seen(way)),
            course.heard(*call, *poll, answers),
            course.after(answers) == (Walk { i: i as int, polled: false, kept: vals(kept@), end: None }),
        decreases items.len() - i,
    {
        assert(all[i as int] == items@[i as int]@);
        let ghost w = course.after(answers);
        let (b, Ghost(a)) = try_predicate(&items, &whole, &func, &way, i, call, poll);
        proof {
            let ask = predicate_ask(all, func@, seen(way), i as int);
            assert(course.next(answers) == Plan::Put(ask));
            course.lemma_heard(*call, *poll, answers, ask, a);
            answers = answers.push(a);
            assert(course.after(answers) == took(w, all[i as int], out_bool(b)));
        }
        match b {
            Err(e) => {
                assert(course.next(answers) == Plan::Finish(Err::<Val, Seq<char>>(e.code@)));
                return Err(e);
            },
            Ok(keep) => {
                if keep {
                    let ghost before = kept@;
                    let x = items[i].clone();
                    kept.push(x);
                    assert(vals(kept@) =~= vals(before).push(x@));
                }
            },
        }
        i = i + 1;
    }
    assert(course.next(answers) == Plan::Finish(Ok::<Val, Seq<char>>(Val::Sequence(vals(kept@)))));
    Ok(Value::Sequence(Sequence::with_items(kept)))
}

// ── $single ──────────────────────────────────────────────────────────────────

/// The one of the values there is.
pub open spec fn only_one(s: Seq<Val>) -> Result<Val, Seq<char>> {
    if s.len() == 0 {
        Err("D3139"@)
    } else if s.len() == 1 {
        Ok(s[0])
    } else {
        Err("D3138"@)
    }
}

/// How `$single` works: it stops at the second match.
pub open spec fn single_course(items: Seq<Val>, func: Fun, way: Option<Simple>) -> Course<Walk> {
    Course {
        start: walk_start(),
        plan: |w: Walk|
            if w.end is Some {
                Plan::Finish(Err(w.end->0))
            } else if w.kept.len() > 1 || w.i >= items.len() {
                Plan::Finish(only_one(w.kept))
            } else {
                Plan::Put(predicate_ask(items, func, way, w.i))
            },
        heed: |w: Walk, a: Answer| took(w, items[w.i], predicate_answer(way, items[w.i], a)),
    }
}

/// The body that `$single` tries on its own, if it is a predicate with
/// literals.
pub open spec fn single_way(nodes: Seq<Node>, func: Fun) -> Option<Simple> {
    match fast_body(nodes, func) {
        Some(s) => if s is FieldPredicate || s is CompoundPredicate {
            Some(s)
        } else {
            None
        },
        None => None,
    }
}

/// `$single(array, function?)`: the one item for which a function holds.
pub fn fn_single<
    C: Fn(&FunctionValue, &Vec<Value>, &Value, Option<usize>) -> JsonataResult,
    P: Fn(usize) -> Result<(), JsonataError>,
>(args: &[Value], _focus: &Value, arena: &AstArena, call: &C, poll: &P) -> (r: JsonataResult)
    requires
        open_to_all(*call, *poll),
    ensures
        ({
            let a = vals(args@);
            if a.len() == 0 {
                out(r) == Err::<Val, Seq<char>>("T0410"@)
            } else if a[0] is Undefined {
                out(r) == Ok::<Val, Seq<char>>(Val::Undefined)
            } else if a.len() == 1 {
                out(r) == only_one(items_of(a[0]))
            } else {
                match a[1] {
                    Val::Function(f) => single_course(items_of(a[0]), f, single_way(arena.all(), f)).ends(
                        *call,
                        *poll,
                        out(r),
                    ),
                    _ => out(r) == Err::<Val, Seq<char>>("T0410"@),
                }
            }
        }),
{
    if args.len() == 0 {
        return fail("T0410", "$single: argument is required");
    }
    let ghost given = vals(args@);
    assert(given[0] == args@[0]@);
    if args[0].is_undefined() {
        return Ok(Value::Undefined);
    }
    let items = args[0].coerce_to_array();
    let ghost all = vals(items@);
    if args.len() == 1 {
        if items.len() > 1 {
            return fail("D3138", "$single: expected 1 match, found multiple");
        }
        if items.len() == 0 {
            return fail("D3139", "$single: expected 1 match, found 0");
        }
        assert(all[0] == items@[0]@);
        return Ok(items[0].clone());
    }
    assert(given[1] == args@[1]@);
    let func = match &args[1] {
        Value::Function(f) => f.clone(),
        _ => {
            return fail("T0410", "$single: argument 2 must be a function");
        },
    };
    proof {
        lemma_fast_body(arena.all(), func@);
    }
    let way: Option<SimpleLambda> = match try_fast_lambda(&func, arena) {
        Some(s) => match s {
            SimpleLambda::FieldPredicate { .. } => Some(s),
            SimpleLambda::CompoundPredicate { .. } => Some(s),
            _ => None,
        },
        None => None,
    };
    assert(seen(way) == single_way(arena.all(), func@));
    let whole = Value::Array(clone_all(&items));
    let ghost course = single_course(all, func@, seen(way));
    let ghost mut answers: Seq<Answer> = Seq::empty();
    proof {
        course.lemma_start(*call, *poll);
    }
    let mut found: Option<Value> = None;
    let ghost mut kept: Seq<Val> = Seq::empty();
    let mut i: usize = 0;
    while i < items.len()
        invariant
            i <= items.len(),
            all == vals(items@),
            whole@ == Val::Array(all),
            open_to_all(*call, *poll),
            match seen(way) {
                Some(s) => well_made(s),
                None => true,
            },
            given == vals(args@),
            given.len() > 1,
            !(given[0] is Undefined),
            all == items_of(given[0]),
            given[1] == Val::Function(func@),
            seen(way) == single_way(arena.all(), func@),
            course == single_course(all, func@, seen(way)),
            course.heard(*call, *poll, answers),
            course.after(answers) == (Walk { i: i as int, polled: false, kept, end: None }),
            match found {
                Some(v) => kept == seq![v@],
                None => kept == Seq::<Val>::empty(),
            },
        decreases items.len() - i,
    {
        assert(all[i as int] == items@[i as int]@);
        let ghost w = course.after(answers);
        let (b, Ghost(a)) = try_predicate(&items, &whole, &func, &way, i, call, poll);
        proof {
            let ask = predicate_ask(all, func@, seen(way), i as int);
            assert(course.next(answers) == Plan::Put(ask));
            course.lemma_heard(*call, *poll, answers, ask, a);
            answers = answers.push(a);
            assert(course.after(answers) == took(w, all[i as int], out_bool(b)));
        }
        match b {
            Err(e) => {
                assert(course.next(answers) == Plan::Finish(Err::<Val, Seq<char>>(e.code@)));
                return Err(e);
            },
            Ok(keep) => {
                if keep {
                    proof {
                        kept = kept.push(all[i as int]);
                    }
                    if found.is_some() {
                        assert(kept.len() == 2);
                        assert(course.next(answers) == Plan::Finish(Err::<Val, Seq<char>>("D3138"@)));
                        return fail("D3138", "$single: expected 1 match, found multiple");
                    }
                    let x = items[i].clone();
                    found = Some(x);
                    assert(kept =~= seq![x@]);
                }
            },
        }
        i = i + 1;
    }
    assert(course.next(answers) == Plan::Finish(only_one(kept)));
    match found {
        Some(v) => Ok(v),
        None => fail("D3139", "$single: expected 1 match, found 0"),
    }
}

// ── $reduce ──────────────────────────────────────────────────────────────────

/// How far a fold has come.
pub struct Fold {
    pub i: int,
    pub acc: Val,
    pub end: Option<Seq<char>>,
}

/// A fold that goes on to the next item, after the outcome for this one.
pub open spec fn folded(f: Fold, r: Result<Val, Seq<char>>) -> Fold {
    match r {
        Ok(acc) => Fold { i: f.i + 1, acc, end: None },
        Err(e) => Fold { end: Some(e), ..f },
    }
}

/// What a body that accumulates makes of an accumulator and an item.
pub open spec fn folded_simply(s: Simple, acc: Val, item: Val) -> Result<Val, Seq<char>> {
    match s {
        Simple::ReduceAccum { field, op } => simple_result(acc, op, field_of(item, field)),
        Simple::ReduceCompoundAccum { field1, field2, outer_op, inner_op } => match simple_result(
            field_of(item, field1),
            inner_op,
            field_of(item, field2),
        ) {
            Ok(inner) => simple_result(acc, outer_op, inner),
            Err(e) => Err(e),
        },
        _ => Ok(acc),
    }
}

/// The arguments of a function that accumulates: built-in functions get the
/// accumulator and the item.
pub open spec fn fold_args(func: Fun, acc: Val, item: Val, i: int, whole: Val) -> Seq<Val> {
    let n = match func {
        Fun::Lambda { params, .. } => params.len(),
        _ => 2,
    };
    if n <= 1 {
        seq![acc]
    } else if n == 2 {
        seq![acc, item]
    } else if n == 3 {
        seq![acc, item, Val::Number(Number::of_int(i))]
    } else {
        seq![acc, item, Val::Number(Number::of_int(i)), whole]
    }
}

/// How `$reduce` works, from an item on.
pub open spec fn reduce_course(items: Seq<Val>, func: Fun, way: Option<Simple>, from: int, acc: Val) -> Course<Fold> {
    Course {
        start: Fold { i: from, acc, end: None },
        plan: |f: Fold|
            if f.end is Some {
                Plan::Finish(Err(f.end->0))
            } else if f.i >= items.len() {
                Plan::Finish(Ok(f.acc))
            } else {
                Plan::Put(
                    match way {
                        Some(_) => Ask::Poll((f.i - from) as usize),
                        None => Ask::Call {
                            func,
                            args: fold_args(func, f.acc, items[f.i], f.i, Val::Array(items)),
                            focus: items[f.i],
                            scope: None,
                        },
                    },
                )
            },
        heed: |f: Fold, a: Answer|
            folded(
                f,
                match (a, way) {
                    (Err(e), _) => Err(e),
                    (Ok(_), Some(s)) => folded_simply(s, f.acc, items[f.i]),
                    (Ok(v), None) => Ok(settled(v)),
                },
            ),
    }
}

/// The body that `$reduce` works out on its own, if it accumulates.
pub open spec fn reduce_way(nodes: Seq<Node>, func: Fun) -> Option<Simple> {
    match fast_body(nodes, func) {
        Some(s) => if s is ReduceAccum || s is ReduceCompoundAccum {
            Some(s)
        } else {
            None
        },
        None => None,
    }
}

/// Whether a function takes too few parameters to accumulate.
pub open spec fn too_narrow(func: Fun) -> bool {
    match func {
        Fun::Lambda { params, .. } => params.len() < 2,
        _ => false,
    }
}

fn fold_simply(fast: &SimpleLambda, acc: &Value, item: &Value) -> (r: JsonataResult)
    requires
        well_made(fast@),
    ensures
        out(r) == folded_simply(fast@, acc@, item@),
{
    match fast {
        SimpleLambda::ReduceAccum { field, op } => {
            let x = get_field(item, field.as_str());
            eval_binary_simple(acc, *op, &x)
        },
        SimpleLambda::ReduceCompoundAccum { field1, field2, outer_op, inner_op } => {
            let x = get_field(item, field1.as_str());
            let y = get_field(item, field2.as_str());
            match eval_binary_simple(&x, *inner_op, &y) {
                Ok(inner) => eval_binary_simple(acc, *outer_op, &inner),
                Err(e) => Err(e),
            }
        },
        _ => Ok(acc.clone()),
    }
}

fn reduce_args(func: &FunctionValue, acc: &Value, item: &Value, i: usize, whole: &Value) -> (r: Vec<Value>)
    ensures
        vals(r@) == fold_args(func@, acc@, item@, i as int, whole@),
{
    let n: usize = match func {
        FunctionValue::Lambda(l) => {
            assert(texts(l.params@).len() == l.params@.len());
            l.params.len()
        },
        _ => 2,
    };
    let mut r: Vec<Value> = Vec::new();
    let x = acc.clone();
    r.push(x);
    if n >= 2 {
        let x = item.clone();
        r.push(x);
    }
    if n >= 3 {
        r.push(Value::Number(Number::from_usize(i)));
    }
    if n >= 4 {
        let x = whole.clone();
        r.push(x);
    }
    assert(vals(r@) =~= fold_args(func@, acc@, item@, i as int, whole@));
    r
}

/// `$reduce(array, function, init?)`: items folded into one value.
pub fn fn_reduce<
    C: Fn(&FunctionValue, &Vec<Value>, &Value, Option<usize>) -> JsonataResult,
    P: Fn(usize) -> Result<(), JsonataError>,
>(args: &[Value], _focus: &Value, arena: &AstArena, call: &C, poll: &P) -> (r: JsonataResult)
    requires
        open_to_all(*call, *poll),
    ensures
        match items_and_function(vals(args@)) {
            Err(e) => out(r) == Err::<Val, Seq<char>>(e),
            Ok(None) => out(r) == Ok::<Val, Seq<char>>(Val::Undefined),
            Ok(Some((items, func))) => {
                let way = reduce_way(arena.all(), func);
                if too_narrow(func) {
                    out(r) == Err::<Val, Seq<char>>("D3050"@)
                } else if items.len() == 0 {
                    out(r) == Ok::<Val, Seq<char>>(arg(vals(args@), 2))
                } else if args@.len() > 2 {
                    reduce_course(items, func, way, 0, vals(args@)[2]).ends(*call, *poll, out(r))
                } else {
                    reduce_course(items, func, way, 1, items[0]).ends(*call, *poll, out(r))
                }
            },
        },
{
    let ghost given = vals(args@);
    let (items, func) = match get_items_and_function(args, "$reduce") {
        Err(e) => {
            return Err(e);
        },
        Ok(None) => {
            return Ok(Value::Undefined);
        },
        Ok(Some(p)) => p,
    };
    if let FunctionValue::Lambda(l) = &func {
        assert(texts(l.params@).len() == l.params@.len());
        if l.params.len() < 2 {
            return fail("D3050", "$reduce: function argument must accept at least 2 parameters");
        }
    }
    let ghost all = vals(items@);
    let mut acc: Value = Value::Undefined;
    if args.len() > 2 {
        assert(given[2] == args@[2]@);
        acc = args[2].clone();
    }
    if items.len() == 0 {
        return Ok(acc);
    }
    let from: usize = if args.len() > 2 {
        0
    } else {
        1
    };
    if args.len() <= 2 {
        assert(all[0] == items@[0]@);
        acc = items[0].clone();
    }
    proof {
        lemma_fast_body(arena.all(), func@);
    }
    let way: Option<SimpleLambda> = match try_fast_lambda(&func, arena) {
        Some(s) => match s {
            SimpleLambda::ReduceAccum { .. } => Some(s),
            SimpleLambda::ReduceCompoundAccum { .. } => Some(s),
            _ => None,
        },
        None => None,
    };
    assert(seen(way) == reduce_way(arena.all(), func@));
    let whole = Value::Array(clone_all(&items));
    let ghost course = reduce_course(all, func@, seen(way), from as int, acc@);
    let ghost init = acc@;
    let ghost mut answers: Seq<Answer> = Seq::empty();
    proof {
        course.lemma_start(*call, *poll);
    }
    let mut i: usize = from;
    while i < items.len()
        invariant
            from <= i <= items.len(),
            all == vals(items@),
            all.len() > 0,
            whole@ == Val::Array(all),
            open_to_all(*call, *poll),
            match seen(way) {
                Some(s) => well_made(s),
                None => true,
            },
            given == vals(args@),
            items_and_function(given) == Ok::<Option<(Seq<Val>, Fun)>, Seq<char>>(Some((all, func@))),
            !too_narrow(func@),
            from == (if args@.len() > 2 {
                0int
            } else {
                1
            }),
            init == (if args@.len() > 2 {
                given[2]
            } else {
                all[0]
            }),
            seen(way) == reduce_way(arena.all(), func@),
            course == reduce_course(all, func@, seen(way), from as int, init),
            course.heard(*call, *poll, answers),
            course.after(answers) == (Fold { i: i as int, acc: acc@, end: None }),
        decreases items.len() - i,
    {
        assert(all[i as int] == items@[i as int]@);
        let ghost f = course.after(answers);
        let next: JsonataResult;
        match &way {
            Some(fast) => {
                let step: usize = i - from;
                let p = ask_poll(poll, step);
                proof {
                    let ask = Ask::Poll(step);
                    assert(course.next(answers) == Plan::Put(ask));
                    course.lemma_heard(*call, *poll, answers, ask, poll_answer(p));
                    answers = answers.push(poll_answer(p));
                }
                next = match p {
                    Ok(_) => fold_simply(fast, &acc, &items[i]),
                    Err(e) => Err(e),
                };
            },
            None => {
                let call_args = reduce_args(&func, &acc, &items[i], i, &whole);
                let v = ask_call(call, &func, &call_args, &items[i], None);
                proof {
                    let ask = Ask::Call { func: func@, args: vals(call_args@), focus: all[i as int], scope: None };
                    assert(course.next(answers) == Plan::Put(ask));
                    course.lemma_heard(*call, *poll, answers, ask, out(v));
                    answers = answers.push(out(v));
                }
                next = match v {
                    Ok(v) => Ok(collapse_sequence(v)),
                    Err(e) => Err(e),
                };
            },
        }
        assert(course.after(answers) == folded(f, out(next)));
        match next {
            Ok(v) => {
                acc = v;
            },
            Err(e) => {
                assert(course.next(answers) == Plan::Finish(Err::<Val, Seq<char>>(e.code@)));
                return Err(e);
            },
        }
        i = i + 1;
    }
    assert(course.next(answers) == Plan::Finish(Ok::<Val, Seq<char>>(acc@)));
    Ok(acc)
}

// ── $each ────────────────────────────────────────────────────────────────────

/// What a function over members asks at one of them.
pub open spec fn member_ask(o: Seq<(Seq<char>, Val)>, func: Fun, i: int) -> Ask {
    Ask::Call {
        func,
        args: callback_args(func, o[i].1, Val::String(o[i].0), Val::Object(o)),
        focus: o[i].1,
        scope: None,
    }
}

/// How `$each` works.
pub open spec fn each_course(o: Seq<(Seq<char>, Val)>, func: Fun) -> Course<Walk> {
    Course {
        start: walk_start(),
        plan: |w: Walk|
            if w.end is Some {
                Plan::Finish(Err(w.end->0))
            } else if w.i >= o.len() {
                Plan::Finish(Ok(Val::Sequence(w.kept)))
            } else {
                Plan::Put(member_ask(o, func, w.i))
            },
        heed: |w: Walk, a: Answer|
            match a {
                Ok(v) => went_on(w, embedded(v)),
                Err(e) => stopped(w, e),
            },
    }
}

/// The object, the function, and whether the object is the context item, of
/// `$each`; a lone argument that is no function is the object.
pub open spec fn each_args(a: Seq<Val>, focus: Val) -> Result<(Val, Val, bool), Seq<char>> {
    if a.len() >= 2 {
        Ok((a[0], a[1], false))
    } else if a.len() == 1 && a[0] is Function {
        Ok((focus, a[0], true))
    } else if a.len() == 1 {
        Ok((a[0], focus, false))
    } else {
        Err("T0410"@)
    }
}

/// Call a function on a member.
fn call_on_member<C: Fn(&FunctionValue, &Vec<Value>, &Value, Option<usize>) -> JsonataResult>(
    o: &ObjectMap,
    whole: &Value,
    func: &FunctionValue,
    i: usize,
    call: &C,
) -> (r: JsonataResult)
    requires
        i < o.entries.len(),
        whole@ == Val::Object(o@),
        forall|f: &FunctionValue, a: &Vec<Value>, v: &Value, s: Option<usize>| #[trigger]
            call.requires((f, a, v, s)),
    ensures
        may_return(
            *call,
            func@,
            callback_args(func@, o@[i as int].1, Val::String(o@[i as int].0), Val::Object(o@)),
            o@[i as int].1,
            None,
            out(r),
        ),
{
    assert(o@[i as int] == (o.entries@[i as int].key@, o.entries@[i as int].value@));
    let key = Value::String(o.entries[i].key.clone());
    let args = hof_args(func, &o.entries[i].value, key, whole);
    ask_call(call, func, &args, &o.entries[i].value, None)
}

/// `$each(object, function)`: what a function gives for each member.
pub fn fn_each<
    C: Fn(&FunctionValue, &Vec<Value>, &Value, Option<usize>) -> JsonataResult,
    P: Fn(usize) -> Result<(), JsonataError>,
>(args: &[Value], focus: &Value, call: &C, poll: &P) -> (r: JsonataResult)
    requires
        open_to_all(*call, *poll),
    ensures
        match each_args(vals(args@), focus@) {
            Err(e) => out(r) == Err::<Val, Seq<char>>(e),
            Ok((obj, func, from_focus)) => match (obj, func) {
                (Val::Undefined, _) => out(r) == Ok::<Val, Seq<char>>(Val::Undefined),
                (Val::Object(o), Val::Function(f)) => each_course(o, f).ends(*call, *poll, out(r)),
                (Val::Object(_), _) => out(r) == Err::<Val, Seq<char>>("T0410"@),
                _ => out(r) == Err::<Val, Seq<char>>(context_code(from_focus)),
            },
        },
{
    let ghost given = vals(args@);
    if args.len() > 0 {
        assert(given[0] == args@[0]@);
    }
    if args.len() > 1 {
        assert(given[1] == args@[1]@);
    }
    let (obj, func, from_focus): (&Value, &Value, bool) = if args.len() >= 2 {
        (&args[0], &args[1], false)
    } else if args.len() == 1 && args[0].is_function() {
        (focus, &args[0], true)
    } else if args.len() == 1 {
        (&args[0], focus, false)
    } else {
        return fail("T0410", "$each: requires 2 arguments");
    };
    if obj.is_undefined() {
        return Ok(Value::Undefined);
    }
    let o = match obj {
        Value::Object(o) => o,
        _ => {
            return fail(context_arg_code(from_focus), "$each: first argument must be an object");
        },
    };
    let f = match func.require_function() {
        Ok(f) => f,
        Err(e) => {
            return Err(e);
        },
    };
    let ghost course = each_course(o@, f@);
    let ghost mut answers: Seq<Answer> = Seq::empty();
    proof {
        course.lemma_start(*call, *poll);
    }
    let mut kept: Vec<Value> = Vec::new();
    assert(vals(kept@) =~= Seq::empty());
    let mut i: usize = 0;
    while i < o.entries.len()
        invariant
            i <= o.entries.len(),
            o@.len() == o.entries.len(),
            obj@ == Val::Object(o@),
            each_args(vals(args@), focus@) == Ok::<(Val, Val, bool), Seq<char>>((obj@, func@, from_focus)),
            func@ == Val::Function(f@),
            open_to_all(*call, *poll),
            course == each_course(o@, f@),
            course.heard(*call, *poll, answers),
            course.after(answers) == (Walk { i: i as int, polled: false, kept: vals(kept@), end: None }),
        decreases o.entries.len() - i,
    {
        let ghost w = course.after(answers);
        let v = call_on_member(o, obj, &f, i, call);
        proof {
            let ask = member_ask(o@, f@, i as int);
            assert(course.next(answers) == Plan::Put(ask));
            course.lemma_heard(*call, *poll, answers, ask, out(v));
            answers = answers.push(out(v));
        }
        match v {
            Ok(x) => {
                assert(course.after(answers) == went_on(w, embedded(x@)));
                push_kept(&mut kept, embed_callback_result(x));
            },
            Err(e) => {
                assert(course.after(answers) == stopped(w, e.code@));
                assert(course.next(answers) == Plan::Finish(Err::<Val, Seq<char>>(e.code@)));
                return Err(e);
            },
        }
        i = i + 1;
    }
    assert(course.next(answers) == Plan::Finish(Ok::<Val, Seq<char>>(Val::Sequence(vals(kept@)))));
    Ok(Value::Sequence(Sequence::with_items(kept)))
}

// ── $sift ────────────────────────────────────────────────────────────────────

/// How far a walk over members has come.
pub struct Sifted {
    pub i: int,
    pub kept: Seq<(Seq<char>, Val)>,
    pub end: Option<Seq<char>>,
}

/// A walk over members that goes on, after what a predicate said of one.
pub open spec fn sifted(s: Sifted, key: Seq<char>, value: Val, b: Result<bool, Seq<char>>) -> Sifted {
    match b {
        Err(e) => Sifted { end: Some(e), ..s },
        Ok(keep) => Sifted {
            i: s.i + 1,
            kept: if keep {
                with_member(s.kept, key, value)
            } else {
                s.kept
            },
            end: None,
        },
    }
}

/// How `$sift` works; nothing kept is nothing at all.
pub open spec fn sift_course(o: Seq<(Seq<char>, Val)>, func: Fun) -> Course<Sifted> {
    Course {
        start: Sifted { i: 0, kept: Seq::empty(), end: None },
        plan: |s: Sifted|
            if s.end is Some {
                Plan::Finish(Err(s.end->0))
            } else if s.i >= o.len() {
                Plan::Finish(
                    Ok(
                        if s.kept.len() == 0 {
                            Val::Undefined
                        } else {
                            Val::Object(s.kept)
                        },
                    ),
                )
            } else {
                Plan::Put(member_ask(o, func, s.i))
            },
        heed: |s: Sifted, a: Answer| sifted(s, o[s.i].0, o[s.i].1, held(a)),
    }
}

/// The object, the function, and whether the object is the context item, of
/// `$sift`.
pub open spec fn sift_args(a: Seq<Val>, focus: Val) -> Result<(Val, Val, bool), Seq<char>> {
    if a.len() >= 2 {
        Ok((a[0], a[1], false))
    } else if a.len() == 1 && a[0] is Function {
        Ok((focus, a[0], true))
    } else {
        Err("T0410"@)
    }
}

/// The members of an object for which a function holds.
fn sift_object<
    C: Fn(&FunctionValue, &Vec<Value>, &Value, Option<usize>) -> JsonataResult,
    P: Fn(usize) -> Result<(), JsonataError>,
>(o: &ObjectMap, whole: &Value, func: &FunctionValue, call: &C, poll: &P) -> (r: JsonataResult)
    requires
        whole@ == Val::Object(o@),
        open_to_all(*call, *poll),
    ensures
        sift_course(o@, func@).ends(*call, *poll, out(r)),
{
    let ghost course = sift_course(o@, func@);
    let ghost mut answers: Seq<Answer> = Seq::empty();
    proof {
        course.lemma_start(*call, *poll);
    }
    let mut kept = ObjectMap::new();
    let mut i: usize = 0;
    while i < o.entries.len()
        invariant
            i <= o.entries.len(),
            o@.len() == o.entries.len(),
            whole@ == Val::Object(o@),
            open_to_all(*call, *poll),
            course == sift_course(o@, func@),
            course.heard(*call, *poll, answers),
            course.after(answers) == (Sifted { i: i as int, kept: kept@, end: None }),
        decreases o.entries.len() - i,
    {
        assert(o@[i as int] == (o.entries@[i as int].key@, o.entries@[i as int].value@));
        let ghost s = course.after(answers);
        let v = call_on_member(o, whole, func, i, call);
        let ghost a = out(v);
        let b = holds(v);
        proof {
            let ask = member_ask(o@, func@, i as int);
            assert(course.next(answers) == Plan::Put(ask));
            course.lemma_heard(*call, *poll, answers, ask, a);
            answers = answers.push(a);
            assert(course.after(answers) == sifted(s, o@[i as int].0, o@[i as int].1, out_bool(b)));
        }
        match b {
            Err(e) => {
                assert(course.next(answers) == Plan::Finish(Err::<Val, Seq<char>>(e.code@)));
                return Err(e);
            },
            Ok(keep) => {
                if keep {
                    kept.insert(o.entries[i].key.clone(), o.entries[i].value.clone());
                }
            },
        }
        i = i + 1;
    }
    if kept.is_empty() {
        assert(course.next(answers) == Plan::Finish(Ok::<Val, Seq<char>>(Val::Undefined)));
        return Ok(Value::Undefined);
    }
    assert(course.next(answers) == Plan::Finish(Ok::<Val, Seq<char>>(Val::Object(kept@))));
    Ok(Value::Object(kept))
}

/// `$sift(object, function)`: the members for which a function holds.
pub fn fn_sift<
    C: Fn(&FunctionValue, &Vec<Value>, &Value, Option<usize>) -> JsonataResult,
    P: Fn(usize) -> Result<(), JsonataError>,
>(args: &[Value], focus: &Value, call: &C, poll: &P) -> (r: JsonataResult)
    requires
        open_to_all(*call, *poll),
    ensures
        match sift_args(vals(args@), focus@) {
            Err(e) => out(r) == Err::<Val, Seq<char>>(e),
            Ok((obj, func, from_focus)) => match (obj, func) {
                (Val::Undefined, _) => out(r) == Ok::<Val, Seq<char>>(Val::Undefined),
                (Val::Object(o), Val::Function(f)) => sift_course(o, f).ends(*call, *poll, out(r)),
                (_, Val::Function(_)) => out(r) == Err::<Val, Seq<char>>(context_code(from_focus)),
                _ => out(r) == Err::<Val, Seq<char>>("T0410"@),
            },
        },
{
    let ghost given = vals(args@);
    if args.len() > 0 {
        assert(given[0] == args@[0]@);
    }
    if args.len() > 1 {
        assert(given[1] == args@[1]@);
    }
    let (obj, func, from_focus): (&Value, &Value, bool) = if args.len() >= 2 {
        (&args[0], &args[1], false)
    } else if args.len() == 1 && args[0].is_function() {
        (focus, &args[0], true)
    } else {
        return fail("T0410", "$sift: requires 2 arguments");
    };
    if obj.is_undefined() {
        return Ok(Value::Undefined);
    }
    let f = match func.require_function() {
        Ok(f) => f,
        Err(e) => {
            return Err(e);
        },
    };
    match obj {
        Value::Object(o) => sift_object(o, obj, &f, call, poll),
        _ => fail(context_arg_code(from_focus), "$sift: first argument must be an object"),
    }
}

// ── $sort ────────────────────────────────────────────────────────────────────

/// How `$sort` finds which of two items comes first.
pub enum SortWay {
    /// By the same field of both, with an operator that says whether the second
    /// stays behind the first.
    Field { field: Seq<char>, op: BinaryOp },
    /// It calls a function on the second and the first, which says whether the
    /// second comes after.
    Called(Fun),
    /// By their natural order.
    Natural,
}

/// Whether an item naturally comes before another; items of kinds that have no
/// order cannot be sorted.
pub open spec fn naturally_before(a: Val, b: Val) -> Result<bool, Seq<char>> {
    match ordered(a, b) {
        Ok(n) => Ok(n < 0),
        Err(e) => Err(
            if e == "T2008"@ {
                "D3070"@
            } else {
                e
            },
        ),
    }
}

/// Whether the comparison of two items may come out so.
#[verifier::opaque]
pub open spec fn may_compare<C: Fn(&FunctionValue, &Vec<Value>, &Value, Option<usize>) -> JsonataResult>(
    way: SortWay,
    call: &C,
    a: Val,
    b: Val,
    r: Result<bool, Seq<char>>,
) -> bool {
    match way {
        SortWay::Field { field, op } => r == held(simple_result(field_of(b, field), op, field_of(a, field))),
        SortWay::Called(func) => may_hold(call, func, a, b, r),
        SortWay::Natural => r == naturally_before(a, b),
    }
}

/// The arguments of a comparison: the second item and the first.
pub open spec fn swapped(a: Val, b: Val) -> Seq<Val> {
    seq![b, a]
}

/// Whether a function may say of two items that the second comes after.
pub open spec fn may_hold<C: Fn(&FunctionValue, &Vec<Value>, &Value, Option<usize>) -> JsonataResult>(
    call: &C,
    func: Fun,
    a: Val,
    b: Val,
    r: Result<bool, Seq<char>>,
) -> bool {
    exists|answer: Answer| #[trigger] may_return(*call, func, swapped(a, b), a, None, answer) && r == held(answer)
}

/// Whether one item may stand right before another: it was found to come before
/// it, or it came first and the other was not found to come before it.
pub open spec fn may_stand<C: Fn(&FunctionValue, &Vec<Value>, &Value, Option<usize>) -> JsonataResult>(
    way: SortWay,
    call: &C,
    items: Seq<Val>,
    x: int,
    y: int,
) -> bool {
    may_compare(way, call, items[x], items[y], Ok(true)) || (x < y && may_compare(
        way,
        call,
        items[y],
        items[x],
        Ok(false),
    ))
}

/// Whether items are others in the order of their places, and each stands where
/// a comparison put it.
pub open spec fn in_places<C: Fn(&FunctionValue, &Vec<Value>, &Value, Option<usize>) -> JsonataResult>(
    way: SortWay,
    call: &C,
    items: Seq<Val>,
    sorted: Seq<Val>,
    places: Seq<int>,
) -> bool {
    &&& sorted.len() == items.len()
    &&& places.len() == items.len()
    &&& forall|i: int| 0 <= i < places.len() ==> 0 <= (#[trigger] places[i]) < items.len()
    &&& forall|i: int, j: int| 0 <= i < j < places.len() ==> (#[trigger] places[i]) != (#[trigger] places[j])
    &&& forall|i: int| 0 <= i < sorted.len() ==> (#[trigger] sorted[i]) == items[places[i]]
    &&& forall|i: int| 0 <= i < places.len() - 1 ==> may_stand(way, call, items, #[trigger] places[i], places[i + 1])
}

/// What may come of comparing the items at two places.
pub open spec fn compared<C: Fn(&FunctionValue, &Vec<Value>, &Value, Option<usize>) -> JsonataResult>(
    way: SortWay,
    call: &C,
    items: Seq<Val>,
) -> Saying<Seq<char>> {
    |x: usize, y: usize, l: Result<bool, Seq<char>>|
        x < items.len() && y < items.len() && may_compare(way, call, items[x as int], items[y as int], l)
}

/// Whether a sort may leave items in an order: merged run by run, by what comes
/// of each comparison.
pub open spec fn may_leave<C: Fn(&FunctionValue, &Vec<Value>, &Value, Option<usize>) -> JsonataResult>(
    way: SortWay,
    call: &C,
    items: Seq<Val>,
    sorted: Seq<Val>,
) -> bool {
    exists|places: Seq<usize>| #[trigger]
        sorts(compared(way, call, items), items.len(), Ok::<Seq<usize>, Seq<char>>(places)) && in_places(
            way,
            call,
            items,
            sorted,
            ints(places),
        )
}

/// Whether `$sort` may give a result for items.
pub open spec fn may_sort<C: Fn(&FunctionValue, &Vec<Value>, &Value, Option<usize>) -> JsonataResult>(
    way: SortWay,
    call: &C,
    items: Seq<Val>,
    r: Result<Val, Seq<char>>,
) -> bool {
    match r {
        Ok(Val::Array(sorted)) => may_leave(way, call, items, sorted),
        Ok(_) => false,
        Err(e) => {
            &&& sorts(compared(way, call, items), items.len(), Err::<Seq<usize>, Seq<char>>(e))
            &&& exists|i: int, j: int|
                0 <= i < items.len() && 0 <= j < items.len() && i != j && may_compare(
                    way,
                    call,
                    #[trigger] items[i],
                    #[trigger] items[j],
                    Err(e),
                )
        },
    }
}

/// Where comparing two items has one outcome, so has `$sort`: the same order, or
/// the same error, which is that of the first comparison that fails.
pub proof fn law_sort_has_one_outcome<
    C: Fn(&FunctionValue, &Vec<Value>, &Value, Option<usize>) -> JsonataResult,
>(way: SortWay, call: &C, items: Seq<Val>, a: Result<Val, Seq<char>>, b: Result<Val, Seq<char>>)
    requires
        forall|x: Val, y: Val, l: Result<bool, Seq<char>>, m: Result<bool, Seq<char>>| #[trigger]
            may_compare(way, call, x, y, l) && #[trigger] may_compare(way, call, x, y, m) ==> l == m,
        may_sort(way, call, items, a),
        may_sort(way, call, items, b),
    ensures
        a == b,
{
    let may = compared(way, call, items);
    let n = items.len();
    let x = lemma_sort_outcome(way, call, items, a);
    let y = lemma_sort_outcome(way, call, items, b);
    crate::try_sort::law_sort_has_one_outcome(may, n, x, y);
    match (a, b) {
        (Ok(Val::Array(s)), Ok(Val::Array(t))) => {
            assert(s =~= t);
        },
        _ => {},
    }
}

proof fn lemma_sort_outcome<C: Fn(&FunctionValue, &Vec<Value>, &Value, Option<usize>) -> JsonataResult>(
    way: SortWay,
    call: &C,
    items: Seq<Val>,
    a: Result<Val, Seq<char>>,
) -> (r: Result<Seq<usize>, Seq<char>>)
    requires
        may_sort(way, call, items, a),
    ensures
        sorts(compared(way, call, items), items.len(), r),
        match a {
            Ok(Val::Array(sorted)) => r matches Ok(places) && in_places(way, call, items, sorted, ints(places)),
            Ok(_) => false,
            Err(e) => r == Err::<Seq<usize>, Seq<char>>(e),
        },
{
    match a {
        Ok(Val::Array(sorted)) => {
            let places = choose|places: Seq<usize>| #[trigger]
                sorts(compared(way, call, items), items.len(), Ok::<Seq<usize>, Seq<char>>(places)) && in_places(
                    way,
                    call,
                    items,
                    sorted,
                    ints(places),
                );
            Ok(places)
        },
        Ok(_) => Ok(Seq::empty()),
        Err(e) => Err(e),
    }
}

/// The items and the function of `$sort`: a lone function sorts the context
/// item.
pub open spec fn sort_args(a: Seq<Val>, focus: Val) -> Result<(Val, Option<Fun>), Seq<char>> {
    if a.len() == 0 {
        Err("T0410"@)
    } else if a.len() == 1 {
        match a[0] {
            Val::Function(f) => Ok((focus, Some(f))),
            _ => Ok((a[0], None)),
        }
    } else {
        match a[1] {
            Val::Function(f) => Ok((a[0], Some(f))),
            _ => Err("T0410"@),
        }
    }
}

/// How `$sort` compares.
pub open spec fn sort_way(nodes: Seq<Node>, func: Option<Fun>) -> SortWay {
    match func {
        None => SortWay::Natural,
        Some(f) => match fast_body(nodes, f) {
            Some(Simple::SortComparator { field, op }) => SortWay::Field { field, op },
            _ => SortWay::Called(f),
        },
    }
}

/// Whether a comparison comes out only as `$sort` may compare.
pub open spec fn compares<
    C: Fn(&FunctionValue, &Vec<Value>, &Value, Option<usize>) -> JsonataResult,
    F: Fn(&Value, &Value) -> Result<bool, JsonataError>,
>(way: SortWay, call: &C, less: F) -> bool {
    forall|a: Value, b: Value, r: Result<bool, JsonataError>| #[trigger]
        less.ensures((&a, &b), r) ==> may_compare(way, call, a@, b@, out_bool(r))
}

proof fn lemma_may_stand<
    C: Fn(&FunctionValue, &Vec<Value>, &Value, Option<usize>) -> JsonataResult,
    F: Fn(&Value, &Value) -> Result<bool, JsonataError>,
>(way: SortWay, call: &C, less: F, items: Seq<Value>, x: int, y: int)
    requires
        compares(way, call, less),
        follows(less, items, x, y),
        0 <= x < items.len(),
        0 <= y < items.len(),
    ensures
        may_stand(way, call, vals(items), x, y),
{
    assert(vals(items)[x] == items[x]@);
    assert(vals(items)[y] == items[y]@);
}

proof fn lemma_in_places<
    C: Fn(&FunctionValue, &Vec<Value>, &Value, Option<usize>) -> JsonataResult,
    F: Fn(&Value, &Value) -> Result<bool, JsonataError>,
>(way: SortWay, call: &C, less: F, items: Seq<Value>, sorted: Seq<Value>, places: Seq<int>)
    requires
        compares(way, call, less),
        arranged(less, items, sorted, places),
    ensures
        in_places(way, call, vals(items), vals(sorted), places),
{
    let all = vals(items);
    let s = vals(sorted);
    assert forall|i: int| 0 <= i < s.len() implies (#[trigger] s[i]) == all[places[i]] by {
        assert(s[i] == sorted[i]@);
        assert(all[places[i]] == items[places[i]]@);
    }
    assert forall|i: int| 0 <= i < places.len() - 1 implies may_stand(
        way,
        call,
        all,
        #[trigger] places[i],
        places[i + 1],
    ) by {
        lemma_may_stand(way, call, less, items, places[i], places[i + 1]);
    }
}

/// What a comparison says is what `$sort` may find, with errors by their codes.
proof fn lemma_compared<
    C: Fn(&FunctionValue, &Vec<Value>, &Value, Option<usize>) -> JsonataResult,
    F: Fn(&Value, &Value) -> Result<bool, JsonataError>,
>(way: SortWay, call: &C, less: F, items: Seq<Value>, name: spec_fn(JsonataError) -> Seq<char>)
    requires
        compares(way, call, less),
        forall|e: JsonataError| #[trigger] name(e) == e.code@,
    ensures
        retold(asked(less, items), compared(way, call, vals(items)), name),
{
    let may = asked(less, items);
    let other = compared(way, call, vals(items));
    assert forall|x: usize, y: usize, l: Result<bool, JsonataError>| #[trigger] may(x, y, l) implies other(
        x,
        y,
        renamed(name, l),
    ) by {
        let (a, b) = (items[x as int], items[y as int]);
        assert(less.ensures((&a, &b), l));
        assert(vals(items)[x as int] == a@);
        assert(vals(items)[y as int] == b@);
        assert(out_bool(l) == renamed(name, l));
    }
}

proof fn lemma_may_fail<
    C: Fn(&FunctionValue, &Vec<Value>, &Value, Option<usize>) -> JsonataResult,
    F: Fn(&Value, &Value) -> Result<bool, JsonataError>,
>(way: SortWay, call: &C, less: F, items: Seq<Value>, e: JsonataError)
    requires
        compares(way, call, less),
        ends_with(less, items, e),
    ensures
        may_sort(way, call, vals(items), Err(e.code@)),
{
    let all = vals(items);
    let name = |e: JsonataError| e.code@;
    lemma_compared(way, call, less, items, name);
    lemma_sorts_retold(asked(less, items), compared(way, call, all), name, items.len(), Err::<Seq<usize>, JsonataError>(e));
    let (i, j) = choose|i: int, j: int|
        0 <= i < items.len() && 0 <= j < items.len() && i != j && less.ensures(
            (&#[trigger] items[i], &#[trigger] items[j]),
            Err::<bool, JsonataError>(e),
        );
    assert(all[i] == items[i]@);
    assert(all[j] == items[j]@);
}

/// What a sort by a comparison leaves, as `$sort` gives it.
proof fn lemma_may_sort<
    C: Fn(&FunctionValue, &Vec<Value>, &Value, Option<usize>) -> JsonataResult,
    F: Fn(&Value, &Value) -> Result<bool, JsonataError>,
>(way: SortWay, call: &C, less: F, items: Seq<Value>, r: Result<Vec<Value>, JsonataError>)
    requires
        compares(way, call, less),
        match r {
            Ok(sorted) => sorted_by(less, items, sorted@),
            Err(e) => ends_with(less, items, e),
        },
    ensures
        may_sort(
            way,
            call,
            vals(items),
            match r {
                Ok(sorted) => Ok(Val::Array(vals(sorted@))),
                Err(e) => Err(e.code@),
            },
        ),
{
    match r {
        Ok(sorted) => {
            let all = vals(items);
            let places = choose|places: Seq<usize>| #[trigger]
                sorts(asked(less, items), items.len(), Ok::<Seq<usize>, JsonataError>(places)) && arranged(
                    less,
                    items,
                    sorted@,
                    ints(places),
                );
            let name = |e: JsonataError| e.code@;
            lemma_compared(way, call, less, items, name);
            lemma_sorts_retold(
                asked(less, items),
                compared(way, call, all),
                name,
                items.len(),
                Ok::<Seq<usize>, JsonataError>(places),
            );
            lemma_in_places(way, call, less, items, sorted@, ints(places));
            assert(may_leave(way, call, vals(items), vals(sorted@)));
        },
        Err(e) => {
            lemma_may_fail(way, call, less, items, e);
        },
    }
}

fn natural_less(a: &Value, b: &Value) -> (r: Result<bool, JsonataError>)
    ensures
        out_bool(r) == naturally_before(a@, b@),
{
    match a.compare_order(b) {
        Ok(n) => Ok(n < 0),
        Err(e) => {
            let code = chars_of(e.code);
            if is_text(code.as_slice(), "T2008") {
                Err(JsonataError::new("D3070", e.message.as_str()))
            } else {
                Err(e)
            }
        },
    }
}

fn as_array(r: Result<Vec<Value>, JsonataError>) -> (v: JsonataResult)
    ensures
        out(v) == (match r {
            Ok(sorted) => Ok::<Val, Seq<char>>(Val::Array(vals(sorted@))),
            Err(e) => Err(e.code@),
        }),
{
    match r {
        Ok(sorted) => Ok(Value::Array(sorted)),
        Err(e) => Err(e),
    }
}

fn sort_by_field<C: Fn(&FunctionValue, &Vec<Value>, &Value, Option<usize>) -> JsonataResult>(
    items: Vec<Value>,
    field: &str,
    op: BinaryOp,
    call: &C,
) -> (r: JsonataResult)
    requires
        simple_op(op),
    ensures
        may_sort(SortWay::Field { field: field@, op }, call, vals(items@), out(r)),
{
    let ghost all = items@;
    let less = |a: &Value, b: &Value| -> (l: Result<bool, JsonataError>)
        ensures
            out_bool(l) == held(simple_result(field_of(b@, field@), op, field_of(a@, field@))),
        {
            let x = get_field(b, field);
            let y = get_field(a, field);
            holds(eval_binary_simple(&x, op, &y))
        };
    let r = sort_by_less(items, &less);
    proof {
        reveal(may_compare);
        lemma_may_sort(SortWay::Field { field: field@, op }, call, less, all, r);
    }
    as_array(r)
}

fn call_less<C: Fn(&FunctionValue, &Vec<Value>, &Value, Option<usize>) -> JsonataResult>(
    func: &FunctionValue,
    a: &Value,
    b: &Value,
    call: &C,
) -> (r: Result<bool, JsonataError>)
    requires
        forall|f: &FunctionValue, a: &Vec<Value>, v: &Value, s: Option<usize>| #[trigger]
            call.requires((f, a, v, s)),
    ensures
        may_hold(call, func@, a@, b@, out_bool(r)),
{
    let mut args: Vec<Value> = Vec::new();
    args.push(b.clone());
    args.push(a.clone());
    assert(vals(args@) =~= swapped(a@, b@));
    let v = ask_call(call, func, &args, a, None);
    assert(may_return(*call, func@, swapped(a@, b@), a@, None, out(v)));
    holds(v)
}

fn sort_by_call<C: Fn(&FunctionValue, &Vec<Value>, &Value, Option<usize>) -> JsonataResult>(
    items: Vec<Value>,
    func: &FunctionValue,
    call: &C,
) -> (r: JsonataResult)
    requires
        forall|f: &FunctionValue, a: &Vec<Value>, v: &Value, s: Option<usize>| #[trigger]
            call.requires((f, a, v, s)),
    ensures
        may_sort(SortWay::Called(func@), call, vals(items@), out(r)),
{
    let ghost all = items@;
    let less = |a: &Value, b: &Value| -> (l: Result<bool, JsonataError>)
        ensures
            may_hold(call, func@, a@, b@, out_bool(l)),
        { call_less(func, a, b, call) };
    let r = sort_by_less(items, &less);
    proof {
        reveal(may_compare);
        lemma_may_sort(SortWay::Called(func@), call, less, all, r);
    }
    as_array(r)
}

fn sort_naturally<C: Fn(&FunctionValue, &Vec<Value>, &Value, Option<usize>) -> JsonataResult>(
    items: Vec<Value>,
    call: &C,
) -> (r: JsonataResult)
    ensures
        may_sort(SortWay::Natural, call, vals(items@), out(r)),
{
    let ghost all = items@;
    let less = |a: &Value, b: &Value| -> (l: Result<bool, JsonataError>)
        ensures
            out_bool(l) == naturally_before(a@, b@),
        { natural_less(a, b) };
    let r = sort_by_less(items, &less);
    proof {
        reveal(may_compare);
        lemma_may_sort(SortWay::Natural, call, less, all, r);
    }
    as_array(r)
}

/// `$sort(array, function?)`: the items in order. A function says of two items
/// whether the first comes after the second.
pub fn fn_sort<C: Fn(&FunctionValue, &Vec<Value>, &Value, Option<usize>) -> JsonataResult>(
    args: &[Value],
    focus: &Value,
    arena: &AstArena,
    call: &C,
) -> (r: JsonataResult)
    requires
        forall|f: &FunctionValue, a: &Vec<Value>, v: &Value, s: Option<usize>| #[trigger]
            call.requires((f, a, v, s)),
    ensures
        match sort_args(vals(args@), focus@) {
            Err(e) => out(r) == Err::<Val, Seq<char>>(e),
            Ok((v, func)) => if v is Undefined {
                out(r) == Ok::<Val, Seq<char>>(Val::Undefined)
            } else if items_of(v).len() <= 1 {
                out(r) == Ok::<Val, Seq<char>>(Val::Array(items_of(v)))
            } else {
                may_sort(sort_way(arena.all(), func), call, items_of(v), out(r))
            },
        },
{
    let ghost given = vals(args@);
    if args.len() == 0 {
        return fail("T0410", "$sort: argument is required");
    }
    assert(given[0] == args@[0]@);
    let mut source: &Value = &args[0];
    let mut func: Option<&FunctionValue> = None;
    if args.len() == 1 {
        if let Value::Function(f) = &args[0] {
            source = focus;
            func = Some(f);
        }
    } else {
        assert(given[1] == args@[1]@);
        match &args[1] {
            Value::Function(f) => {
                func = Some(f);
            },
            _ => {
                return fail("T0410", "$sort: argument 2 must be a function");
            },
        }
    }
    if source.is_undefined() {
        return Ok(Value::Undefined);
    }
    let items = source.coerce_to_array();
    if items.len() <= 1 {
        return Ok(Value::Array(items));
    }
    match func {
        None => sort_naturally(items, call),
        Some(f) => {
            proof {
                lemma_fast_body(arena.all(), f@);
            }
            match try_fast_lambda(f, arena) {
                Some(SimpleLambda::SortComparator { field, op }) => sort_by_field(items, field.as_str(), op, call),
                _ => sort_by_call(items, f, call),
            }
        },
    }
}

/// Whether a value is no number at all, of the number kind.
pub open spec fn not_a_number(v: Val) -> bool {
    match v {
        Val::Number(n) => n.nan(),
        _ => false,
    }
}

/// Whether an item may naturally stand before another.
pub open spec fn naturally_at_most(a: Val, b: Val) -> bool {
    match ordered(a, b) {
        Ok(n) => n <= 0,
        Err(_) => false,
    }
}

/// The natural order carries over: what stands before the second of two, the
/// first of which stands before a third, stands before that too.
proof fn lemma_natural_order(a: Val, b: Val, c: Val)
    requires
        !not_a_number(a),
        !not_a_number(b),
        !not_a_number(c),
        naturally_at_most(a, b),
        naturally_at_most(b, c),
    ensures
        naturally_at_most(a, c),
        ordered(a, c) == Ok::<int, Seq<char>>(0) ==> ordered(a, b) == Ok::<int, Seq<char>>(0) && ordered(b, c) == Ok::<
            int,
            Seq<char>,
        >(0),
{
    match (a, b, c) {
        (Val::String(x), Val::String(y), Val::String(z)) => {
            lemma_text_order(x, y);
            lemma_text_order(y, z);
            lemma_text_order(x, z);
            lemma_text_transitive(x, y, z);
        },
        _ => {},
    }
}

/// Without a comparison of its own, `$sort` leaves each item at or before those
/// that follow it, with equal ones in the order in which they came.
pub proof fn law_natural_sort<C: Fn(&FunctionValue, &Vec<Value>, &Value, Option<usize>) -> JsonataResult>(
    call: &C,
    items: Seq<Val>,
    sorted: Seq<Val>,
    places: Seq<int>,
    i: int,
    j: int,
)
    requires
        in_places(SortWay::Natural, call, items, sorted, places),
        forall|k: int| 0 <= k < items.len() ==> !not_a_number(#[trigger] items[k]),
        0 <= i < j < sorted.len(),
    ensures
        naturally_at_most(sorted[i], sorted[j]),
        ordered(sorted[i], sorted[j]) == Ok::<int, Seq<char>>(0) ==> places[i] < places[j],
    decreases j - i,
{
    reveal(may_compare);
    let k = j - 1;
    assert(sorted[k] == items[places[k]]);
    assert(sorted[j] == items[places[j]]);
    assert(sorted[i] == items[places[i]]);
    assert(places[k + 1] == places[j]);
    match (sorted[k], sorted[j]) {
        (Val::String(x), Val::String(y)) => {
            lemma_text_order(x, y);
        },
        _ => {},
    }
    assert(naturally_at_most(sorted[k], sorted[j]));
    if i < k {
        law_natural_sort(call, items, sorted, places, i, k);
        lemma_natural_order(sorted[i], sorted[k], sorted[j]);
    }
}

/// Whether an order ranks items and agrees with how `$sort` compares: of any two
/// one is at or below the other, what is below stays below, and one comes before
/// another where that is not at or below it.
pub open spec fn ranked<C: Fn(&FunctionValue, &Vec<Value>, &Value, Option<usize>) -> JsonataResult>(
    way: SortWay,
    call: &C,
    at_most: spec_fn(Val, Val) -> bool,
) -> bool {
    &&& forall|a: Val, b: Val| #[trigger] at_most(a, b) || at_most(b, a)
    &&& forall|a: Val, b: Val, c: Val| #[trigger] at_most(a, b) && #[trigger] at_most(b, c) ==> at_most(a, c)
    &&& forall|a: Val, b: Val, r: bool| #[trigger] may_compare(way, call, a, b, Ok(r)) ==> r == !at_most(b, a)
}

/// Whatever it compares by, `$sort` leaves items of one rank in the order in
/// which they came, and each item at or below those that follow it.
pub proof fn law_sort_is_stable<C: Fn(&FunctionValue, &Vec<Value>, &Value, Option<usize>) -> JsonataResult>(
    way: SortWay,
    call: &C,
    at_most: spec_fn(Val, Val) -> bool,
    items: Seq<Val>,
    sorted: Seq<Val>,
    places: Seq<int>,
    i: int,
    j: int,
)
    requires
        ranked(way, call, at_most),
        in_places(way, call, items, sorted, places),
        0 <= i < j < sorted.len(),
    ensures
        at_most(sorted[i], sorted[j]),
        at_most(sorted[j], sorted[i]) ==> places[i] < places[j],
    decreases j - i,
{
    let k = j - 1;
    assert(may_stand(way, call, items, places[k], places[k + 1]));
    assert(sorted[k] == items[places[k]]);
    assert(sorted[j] == items[places[j]]);
    assert(at_most(sorted[k], sorted[j]) || at_most(sorted[j], sorted[k]));
    assert(at_most(sorted[k], sorted[j]));
    if i < k {
        law_sort_is_stable(way, call, at_most, items, sorted, places, i, k);
        if at_most(sorted[j], sorted[i]) {
            assert(at_most(sorted[j], sorted[k]));
            assert(at_most(sorted[k], sorted[i]));
        }
    }
}

} // verus!
