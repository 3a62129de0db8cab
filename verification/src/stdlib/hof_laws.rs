//! What higher-order functions make of what their functions give.
use vstd::prelude::*;

use super::body_laws::{
    ample, law_accumulation_means_its_body, law_comparison_means_its_body, law_predicate_means_its_body, meaning, Scope,
};
use super::hof::{
    callback_args, each_course, embedded, fast_body, filter_way, may_compare, sort_way, swapped, SortWay, fold_args,
    folded_simply, held, map_course, member_ask, predicate_answer, predicate_ask, reduce_course, reduce_way,
    sift_course, single_course, Fold, MapWay, Sifted, Walk,
};
use super::hof_fast::Simple;
use super::host::{may_answer, may_return, Answer, Ask, Course, Plan};
use crate::error::{JsonataError, JsonataResult};
use crate::number::Number;
use crate::parser::ast::Node;
use crate::value::{distinct_keys, member_at, settled, with_member, Fun, FunctionValue, Val, Value};

verus! {

/// What every answer keeps holds at the end.
proof fn lemma_kept<
    S,
    C: Fn(&FunctionValue, &Vec<Value>, &Value, Option<usize>) -> JsonataResult,
    P: Fn(usize) -> Result<(), JsonataError>,
>(course: Course<S>, call: C, poll: P, inv: spec_fn(S) -> bool, answers: Seq<Answer>)
    requires
        inv(course.start),
        course.heard(call, poll, answers),
        forall|s: S, a: Answer|
            #![trigger (course.heed)(s, a)]
            inv(s) && (match (course.plan)(s) {
                Plan::Put(ask) => may_answer(call, poll, ask, a),
                Plan::Finish(_) => false,
            }) ==> inv((course.heed)(s, a)),
    ensures
        inv(course.after(answers)),
    decreases answers.len(),
{
    if answers.len() > 0 {
        let before = answers.drop_last();
        let k = answers.len() - 1;
        assert(answers.take(k as int) =~= before);
        assert forall|j: int| 0 <= j < before.len() implies match course.next(#[trigger] before.take(j)) {
            Plan::Put(ask) => may_answer(call, poll, ask, before[j]),
            Plan::Finish(_) => false,
        } by {
            assert(before.take(j) =~= answers.take(j));
        }
        lemma_kept(course, call, poll, inv, before);
        assert(course.next(answers.take(k as int)) == (course.plan)(course.after(before)));
    }
}

/// Answers that lead to an end.
spec fn leads<
    S,
    C: Fn(&FunctionValue, &Vec<Value>, &Value, Option<usize>) -> JsonataResult,
    P: Fn(usize) -> Result<(), JsonataError>,
>(course: Course<S>, call: C, poll: P, r: Result<Val, Seq<char>>, answers: Seq<Answer>) -> bool {
    course.heard(call, poll, answers) && course.next(answers) == Plan::Finish(r)
}

proof fn lemma_ends<
    S,
    C: Fn(&FunctionValue, &Vec<Value>, &Value, Option<usize>) -> JsonataResult,
    P: Fn(usize) -> Result<(), JsonataError>,
>(course: Course<S>, call: C, poll: P, r: Result<Val, Seq<char>>) -> (answers: Seq<Answer>)
    requires
        course.ends(call, poll, r),
    ensures
        leads(course, call, poll, r, answers),
{
    choose|answers: Seq<Answer>| #[trigger] course.heard(call, poll, answers) && course.next(answers) == Plan::Finish(r)
}

// ── $single ──────────────────────────────────────────────────────────────────

/// `$single` gives an item only where its function holds of that item and of no
/// other.
pub proof fn law_single_is_the_only_one<
    C: Fn(&FunctionValue, &Vec<Value>, &Value, Option<usize>) -> JsonataResult,
    P: Fn(usize) -> Result<(), JsonataError>,
>(call: C, poll: P, items: Seq<Val>, func: Fun, way: Option<Simple>, holds: spec_fn(Val) -> bool, found: Val)
    requires
        single_course(items, func, way).ends(call, poll, Ok(found)),
        forall|i: int, a: Answer|
            0 <= i < items.len() && #[trigger] may_answer(call, poll, predicate_ask(items, func, way, i), a)
                ==> match predicate_answer(way, items[i], a) {
                Ok(b) => b == holds(items[i]),
                Err(_) => true,
            },
    ensures
        items.filter(holds) == seq![found],
{
    let course = single_course(items, func, way);
    let answers = lemma_ends(course, call, poll, Ok(found));
    let inv = |w: Walk| 0 <= w.i <= items.len() && (w.end is None ==> w.kept == items.take(w.i).filter(holds));
    reveal(Seq::filter);
    assert(items.take(0).filter(holds) =~= Seq::empty());
    assert forall|w: Walk, a: Answer|
        #![trigger (course.heed)(w, a)]
        inv(w) && (match (course.plan)(w) {
            Plan::Put(ask) => may_answer(call, poll, ask, a),
            Plan::Finish(_) => false,
        }) implies inv((course.heed)(w, a)) by {
        assert(may_answer(call, poll, predicate_ask(items, func, way, w.i), a));
        assert(items.take(w.i + 1).drop_last() =~= items.take(w.i));
        assert(items.take(w.i + 1).last() == items[w.i]);
    }
    lemma_kept(course, call, poll, inv, answers);
    let w = course.after(answers);
    assert(items.take(items.len() as int) =~= items);
    assert(w.kept.len() == 1 && w.kept[0] == found);
    assert(w.kept =~= seq![found]);
}

// ── $reduce ──────────────────────────────────────────────────────────────────

/// Items folded from the left, from one on.
pub open spec fn fold_from(items: Seq<Val>, from: int, to: int, acc: Val, step: spec_fn(Val, Val) -> Val) -> Val
    decreases to - from,
{
    if to <= from {
        acc
    } else {
        step(fold_from(items, from, to - 1, acc, step), items[to - 1])
    }
}

/// What `$reduce` asks at an item.
pub open spec fn fold_ask(items: Seq<Val>, func: Fun, way: Option<Simple>, from: int, acc: Val, i: int) -> Ask {
    match way {
        Some(_) => Ask::Poll((i - from) as usize),
        None => Ask::Call {
            func,
            args: fold_args(func, acc, items[i], i, Val::Array(items)),
            focus: items[i],
            scope: None,
        },
    }
}

/// `$reduce` folds the items from the left, each with what has been made of those
/// before it.
pub proof fn law_reduce_folds<
    C: Fn(&FunctionValue, &Vec<Value>, &Value, Option<usize>) -> JsonataResult,
    P: Fn(usize) -> Result<(), JsonataError>,
>(
    call: C,
    poll: P,
    items: Seq<Val>,
    func: Fun,
    way: Option<Simple>,
    from: int,
    acc: Val,
    step: spec_fn(Val, Val) -> Val,
    result: Val,
)
    requires
        0 <= from <= items.len(),
        reduce_course(items, func, way, from, acc).ends(call, poll, Ok(result)),
        forall|i: int, x: Val, a: Answer|
            0 <= i < items.len() && #[trigger] may_answer(call, poll, fold_ask(items, func, way, from, x, i), a)
                ==> match (a, way) {
                (Err(_), _) => true,
                (Ok(_), Some(s)) => match folded_simply(s, x, items[i]) {
                    Ok(v) => v == step(x, items[i]),
                    Err(_) => true,
                },
                (Ok(v), None) => settled(v) == step(x, items[i]),
            },
    ensures
        result == fold_from(items, from, items.len() as int, acc, step),
{
    let course = reduce_course(items, func, way, from, acc);
    let answers = lemma_ends(course, call, poll, Ok(result));
    let inv = |f: Fold|
        from <= f.i <= items.len() && (f.end is None ==> f.acc == fold_from(items, from, f.i, acc, step));
    assert forall|f: Fold, a: Answer|
        #![trigger (course.heed)(f, a)]
        inv(f) && (match (course.plan)(f) {
            Plan::Put(ask) => may_answer(call, poll, ask, a),
            Plan::Finish(_) => false,
        }) implies inv((course.heed)(f, a)) by {
        assert(may_answer(call, poll, fold_ask(items, func, way, from, f.acc, f.i), a));
    }
    lemma_kept(course, call, poll, inv, answers);
}

/// With a body that it works out on its own, `$reduce` folds the items by what
/// the body gives where the first parameter names what has been made of those
/// before, and the second the item.
pub proof fn law_reduce_by_a_body<
    C: Fn(&FunctionValue, &Vec<Value>, &Value, Option<usize>) -> JsonataResult,
    P: Fn(usize) -> Result<(), JsonataError>,
>(
    call: C,
    poll: P,
    items: Seq<Val>,
    nodes: Seq<Node>,
    func: Fun,
    from: int,
    acc: Val,
    scope: spec_fn(Val, Val) -> Scope,
    result: Val,
)
    requires
        0 <= from <= items.len(),
        reduce_way(nodes, func) is Some,
        reduce_course(items, func, reduce_way(nodes, func), from, acc).ends(call, poll, Ok(result)),
        forall|x: Val, item: Val|
            (#[trigger] scope(x, item))(func->params[0]) == x && scope(x, item)(func->params[1]) == item,
    ensures
        result == fold_from(
            items,
            from,
            items.len() as int,
            acc,
            |x: Val, item: Val| meaning(nodes, func->body, scope(x, item), ample(nodes))->0->Ok_0,
        ),
{
    let way = reduce_way(nodes, func);
    let step = |x: Val, item: Val| meaning(nodes, func->body, scope(x, item), ample(nodes))->0->Ok_0;
    assert forall|i: int, x: Val, a: Answer|
        0 <= i < items.len() && #[trigger] may_answer(call, poll, fold_ask(items, func, way, from, x, i), a) implies match (
        a,
        way,
    ) {
        (Err(_), _) => true,
        (Ok(_), Some(s)) => match folded_simply(s, x, items[i]) {
            Ok(v) => v == step(x, items[i]),
            Err(_) => true,
        },
        (Ok(v), None) => settled(v) == step(x, items[i]),
    } by {
        let sc = scope(x, items[i]);
        assert(sc(func->params[0]) == x && sc(func->params[1]) == items[i]);
        law_accumulation_means_its_body(nodes, func, sc);
    }
    law_reduce_folds(call, poll, items, func, way, from, acc, step, result);
}

// ── $map and $each ───────────────────────────────────────────────────────────

/// The values that a function gives for the first items, without those that are
/// not there.
pub open spec fn given_for(n: int, gives: spec_fn(int) -> Val) -> Seq<Val>
    decreases n,
{
    if n <= 0 {
        Seq::empty()
    } else {
        let before = given_for(n - 1, gives);
        if gives(n - 1) is Undefined {
            before
        } else {
            before.push(gives(n - 1))
        }
    }
}

/// `$map` gives, in the order of the items, what its function gives for each: it
/// is handed the item, its place and the array.
pub proof fn law_map_gives_each<
    C: Fn(&FunctionValue, &Vec<Value>, &Value, Option<usize>) -> JsonataResult,
    P: Fn(usize) -> Result<(), JsonataError>,
>(call: C, poll: P, items: Seq<Val>, func: Fun, gives: spec_fn(int) -> Val, result: Val)
    requires
        map_course(items, func, MapWay::Called).ends(call, poll, Ok(result)),
        forall|i: int, v: Val|
            0 <= i < items.len() && #[trigger] may_answer(
                call,
                poll,
                Ask::Call {
                    func,
                    args: callback_args(func, items[i], Val::Number(Number::of_int(i)), Val::Array(items)),
                    focus: items[i],
                    scope: None,
                },
                Ok(v),
            ) ==> embedded(v) == gives(i),
    ensures
        result == Val::Sequence(given_for(items.len() as int, gives)),
{
    let course = map_course(items, func, MapWay::Called);
    let answers = lemma_ends(course, call, poll, Ok(result));
    let inv = |w: Walk| 0 <= w.i <= items.len() && (w.end is None ==> w.kept == given_for(w.i, gives));
    assert forall|w: Walk, a: Answer|
        #![trigger (course.heed)(w, a)]
        inv(w) && (match (course.plan)(w) {
            Plan::Put(ask) => may_answer(call, poll, ask, a),
            Plan::Finish(_) => false,
        }) implies inv((course.heed)(w, a)) by {
        let ask = Ask::Call {
            func,
            args: callback_args(func, items[w.i], Val::Number(Number::of_int(w.i)), Val::Array(items)),
            focus: items[w.i],
            scope: None,
        };
        assert(may_answer(call, poll, ask, a));
        match a {
            Ok(v) => {
                assert(embedded(v) == gives(w.i));
            },
            Err(_) => {},
        }
    }
    lemma_kept(course, call, poll, inv, answers);
}

/// `$each` gives, in the order of the members, what its function gives for each.
pub proof fn law_each_gives_each<
    C: Fn(&FunctionValue, &Vec<Value>, &Value, Option<usize>) -> JsonataResult,
    P: Fn(usize) -> Result<(), JsonataError>,
>(call: C, poll: P, o: Seq<(Seq<char>, Val)>, func: Fun, gives: spec_fn(int) -> Val, result: Val)
    requires
        each_course(o, func).ends(call, poll, Ok(result)),
        forall|i: int, v: Val|
            0 <= i < o.len() && #[trigger] may_answer(call, poll, member_ask(o, func, i), Ok(v)) ==> embedded(v)
                == gives(i),
    ensures
        result == Val::Sequence(given_for(o.len() as int, gives)),
{
    let course = each_course(o, func);
    let answers = lemma_ends(course, call, poll, Ok(result));
    let inv = |w: Walk| 0 <= w.i <= o.len() && (w.end is None ==> w.kept == given_for(w.i, gives));
    assert forall|w: Walk, a: Answer|
        #![trigger (course.heed)(w, a)]
        inv(w) && (match (course.plan)(w) {
            Plan::Put(ask) => may_answer(call, poll, ask, a),
            Plan::Finish(_) => false,
        }) implies inv((course.heed)(w, a)) by {
        assert(may_answer(call, poll, member_ask(o, func, w.i), a));
        match a {
            Ok(v) => {
                assert(embedded(v) == gives(w.i));
            },
            Err(_) => {},
        }
    }
    lemma_kept(course, call, poll, inv, answers);
}

// ── $sift ────────────────────────────────────────────────────────────────────

proof fn lemma_new_key(o: Seq<(Seq<char>, Val)>, key: Seq<char>, from: int)
    requires
        0 <= from,
        forall|i: int| from <= i < o.len() ==> (#[trigger] o[i]).0 != key,
    ensures
        member_at(o, key, from) is None,
    decreases o.len() - from,
{
    if from < o.len() {
        assert(o[from].0 != key);
        lemma_new_key(o, key, from + 1);
    }
}

proof fn lemma_filtered_keys(o: Seq<(Seq<char>, Val)>, n: int, holds: spec_fn((Seq<char>, Val)) -> bool, j: int)
    requires
        0 <= n <= o.len(),
        0 <= j < o.take(n).filter(holds).len(),
    ensures
        exists|i: int| 0 <= i < n && #[trigger] o[i] == o.take(n).filter(holds)[j],
    decreases n,
{
    reveal(Seq::filter);
    if n > 0 {
        assert(o.take(n).drop_last() =~= o.take(n - 1));
        assert(o.take(n).last() == o[n - 1]);
        if j < o.take(n - 1).filter(holds).len() {
            lemma_filtered_keys(o, n - 1, holds, j);
            let i = choose|i: int| 0 <= i < n - 1 && #[trigger] o[i] == o.take(n - 1).filter(holds)[j];
            assert(o[i] == o.take(n).filter(holds)[j]);
        } else {
            assert(o[n - 1] == o.take(n).filter(holds)[j]);
        }
    }
}

/// `$sift` keeps, in their order, exactly the members of which its function
/// holds; where there are none it gives nothing.
pub proof fn law_sift_keeps_what_holds<
    C: Fn(&FunctionValue, &Vec<Value>, &Value, Option<usize>) -> JsonataResult,
    P: Fn(usize) -> Result<(), JsonataError>,
>(
    call: C,
    poll: P,
    o: Seq<(Seq<char>, Val)>,
    func: Fun,
    holds: spec_fn((Seq<char>, Val)) -> bool,
    result: Val,
)
    requires
        distinct_keys(o),
        sift_course(o, func).ends(call, poll, Ok(result)),
        forall|i: int, a: Answer|
            0 <= i < o.len() && #[trigger] may_answer(call, poll, member_ask(o, func, i), a) ==> match held(a) {
                Ok(b) => b == holds(o[i]),
                Err(_) => true,
            },
    ensures
        result == (if o.filter(holds).len() == 0 {
            Val::Undefined
        } else {
            Val::Object(o.filter(holds))
        }),
{
    let course = sift_course(o, func);
    let answers = lemma_ends(course, call, poll, Ok(result));
    let inv = |w: Sifted| 0 <= w.i <= o.len() && (w.end is None ==> w.kept == o.take(w.i).filter(holds));
    reveal(Seq::filter);
    assert(o.take(0).filter(holds) =~= Seq::empty());
    assert forall|w: Sifted, a: Answer|
        #![trigger (course.heed)(w, a)]
        inv(w) && (match (course.plan)(w) {
            Plan::Put(ask) => may_answer(call, poll, ask, a),
            Plan::Finish(_) => false,
        }) implies inv((course.heed)(w, a)) by {
        assert(may_answer(call, poll, member_ask(o, func, w.i), a));
        assert(o.take(w.i + 1).drop_last() =~= o.take(w.i));
        assert(o.take(w.i + 1).last() == o[w.i]);
        let kept = w.kept;
        let key = o[w.i].0;
        assert forall|j: int| 0 <= j < kept.len() implies (#[trigger] kept[j]).0 != key by {
            lemma_filtered_keys(o, w.i, holds, j);
            let i = choose|i: int| 0 <= i < w.i && #[trigger] o[i] == o.take(w.i).filter(holds)[j];
            assert(o[i].0 != o[w.i].0);
        }
        lemma_new_key(kept, key, 0);
        assert(with_member(kept, key, o[w.i].1) == kept.push(o[w.i]));
    }
    lemma_kept(course, call, poll, inv, answers);
    assert(o.take(o.len() as int) =~= o);
}

// ── Calls ────────────────────────────────────────────────────────────────────

/// Whether calling a function gives what its body gives where the parameters name
/// the arguments.
pub open spec fn calls_mean_the_body<C: Fn(&FunctionValue, &Vec<Value>, &Value, Option<usize>) -> JsonataResult>(
    nodes: Seq<Node>,
    func: Fun,
    call: C,
    scope: spec_fn(Seq<Val>) -> Scope,
) -> bool {
    &&& forall|args: Seq<Val>, k: int|
        0 <= k < args.len() && k < func->params.len() ==> #[trigger] scope(args)(func->params[k]) == args[k]
    &&& forall|args: Seq<Val>, focus: Val, answer: Answer| #[trigger]
        may_return(call, func, args, focus, None, answer) ==> meaning(nodes, func->body, scope(args), ample(nodes))
            == Some(answer)
}

/// Where calling the function gives what its body gives, `$sort` compares by
/// calling it as it does by working it out.
pub proof fn law_called_comparison<C: Fn(&FunctionValue, &Vec<Value>, &Value, Option<usize>) -> JsonataResult>(
    nodes: Seq<Node>,
    func: Fun,
    call: &C,
    scope: spec_fn(Seq<Val>) -> Scope,
    a: Val,
    b: Val,
    r: Result<bool, Seq<char>>,
)
    requires
        fast_body(nodes, func) matches Some(s) && s is SortComparator,
        calls_mean_the_body(nodes, func, *call, scope),
        may_compare(SortWay::Called(func), call, a, b, r),
    ensures
        may_compare(sort_way(nodes, Some(func)), call, a, b, r),
{
    reveal(may_compare);
    let args = swapped(a, b);
    let answer = choose|answer: Answer| #[trigger]
        may_return(*call, func, args, a, None, answer) && r == held(answer);
    assert(meaning(nodes, func->body, scope(args), ample(nodes)) == Some(answer));
    let sc = scope(args);
    assert(func->params.len() == 2);
    law_comparison_means_its_body(nodes, func, call, sc, r);
    assert(sc(func->params[0]) == args[0]);
    assert(sc(func->params[1]) == args[1]);
}

/// Where calling the function gives what its body gives, a predicate that is
/// called says of an item what it says where it is worked out.
pub proof fn law_called_predicate<
    C: Fn(&FunctionValue, &Vec<Value>, &Value, Option<usize>) -> JsonataResult,
    P: Fn(usize) -> Result<(), JsonataError>,
>(
    nodes: Seq<Node>,
    func: Fun,
    call: C,
    poll: P,
    scope: spec_fn(Seq<Val>) -> Scope,
    items: Seq<Val>,
    i: int,
    answer: Answer,
    go_on: Val,
)
    requires
        filter_way(nodes, func) is Some,
        calls_mean_the_body(nodes, func, call, scope),
        may_answer(call, poll, predicate_ask(items, func, None, i), answer),
    ensures
        predicate_answer(None, items[i], answer) == predicate_answer(filter_way(nodes, func), items[i], Ok(go_on)),
{
    let args = callback_args(func, items[i], Val::Number(Number::of_int(i)), Val::Array(items));
    assert(may_return(call, func, args, items[i], None, answer));
    let sc = scope(args);
    assert(func->params.len() > 0);
    assert(args[0] == items[i]);
    assert(sc(func->params[0]) == args[0]);
    law_predicate_means_its_body(nodes, func, sc, go_on);
}

/// Where calling the function gives what its body gives, a fold by calling it
/// goes on as one that works it out.
pub proof fn law_called_accumulation<
    C: Fn(&FunctionValue, &Vec<Value>, &Value, Option<usize>) -> JsonataResult,
    P: Fn(usize) -> Result<(), JsonataError>,
>(
    nodes: Seq<Node>,
    func: Fun,
    call: C,
    poll: P,
    scope: spec_fn(Seq<Val>) -> Scope,
    items: Seq<Val>,
    from: int,
    acc: Val,
    i: int,
    answer: Answer,
)
    requires
        reduce_way(nodes, func) is Some,
        calls_mean_the_body(nodes, func, call, scope),
        may_answer(call, poll, fold_ask(items, func, None, from, acc, i), answer),
    ensures
        folded_simply(reduce_way(nodes, func)->0, acc, items[i]) == answer,
{
    let args = fold_args(func, acc, items[i], i, Val::Array(items));
    assert(may_return(call, func, args, items[i], None, answer));
    let sc = scope(args);
    assert(func->params.len() >= 2);
    assert(args[0] == acc && args[1] == items[i]);
    assert(sc(func->params[0]) == args[0]);
    assert(sc(func->params[1]) == args[1]);
    law_accumulation_means_its_body(nodes, func, sc);
}

} // verus!
