//! Bodies that are worked out without a call mean what calling them means.
use vstd::prelude::*;

use super::hof::{
    fast_body, filter_course, filter_way, folded_simply, held, held_simply, in_places, map_way, mapped_simply,
    may_compare, may_stand, predicate_answer, predicate_ask, reduce_way, single_way, sort_way, clauses_held, SortWay,
};
use super::hof_fast::{
    call_piece, clauses_in, field_of, literal_of, operands, param_field, piece_of, piece_text, pieces_in, relational_op,
    simple_body, simple_clause, simple_op, simple_result, substring_args, template_in, template_text, text_in,
    law_literal_on_either_side, Clause, Piece, Simple,
};
use super::host::{may_answer, Answer, Plan};
use super::string_funcs::{lower, string, substring, upper};
use crate::error::{JsonataError, JsonataResult};
use crate::number::{
    law_whole_difference, law_whole_numbers_are_exact, law_whole_numbers_are_ordered, law_whole_numbers_come_back,
    law_whole_product, law_whole_remainder, law_whole_sum, Number, WHOLE_LIMIT,
};
use crate::parser::ast::{node_at, BinaryOp, Node, NodeId};
use crate::value::{arithmetic, compared, equal_vals, CompareOp, Fun, FunctionValue, Val, Value};

verus! {

// ── What an expression says ──────────────────────────────────────────────────

/// What names stand for.
pub type Scope = spec_fn(Seq<char>) -> Val;

/// What an operator gives of two values that are both at hand.
pub open spec fn applied(a: Val, op: BinaryOp, b: Val) -> Option<Result<Val, Seq<char>>> {
    match op {
        BinaryOp::Lt => Some(compared(a, b, CompareOp::Lt)),
        BinaryOp::Le => Some(compared(a, b, CompareOp::Le)),
        BinaryOp::Gt => Some(compared(a, b, CompareOp::Gt)),
        BinaryOp::Ge => Some(compared(a, b, CompareOp::Ge)),
        BinaryOp::Eq => Some(Ok(Val::Bool(!(a is Undefined || b is Undefined) && equal_vals(a, b)))),
        BinaryOp::Ne => Some(Ok(Val::Bool(!(a is Undefined || b is Undefined || equal_vals(a, b))))),
        BinaryOp::Add | BinaryOp::Sub | BinaryOp::Mul | BinaryOp::Div | BinaryOp::Mod => Some(arithmetic(op, a, b)),
        BinaryOp::Concat => Some(
            match (text_in(a), text_in(b)) {
                (Err(e), _) => Err(e),
                (Ok(_), Err(e)) => Err(e),
                (Ok(s), Ok(t)) => Ok(Val::String(s + t)),
            },
        ),
        _ => None,
    }
}

/// What an operator gives of what its sides give: `and` and `or` go by truth, and
/// look at the right side only where the left one does not decide.
pub open spec fn joined(l: Result<Val, Seq<char>>, op: BinaryOp, r: Result<Val, Seq<char>>) -> Option<
    Result<Val, Seq<char>>,
> {
    match op {
        BinaryOp::And => Some(
            match (held(l), held(r)) {
                (Err(e), _) => Err(e),
                (Ok(false), _) => Ok(Val::Bool(false)),
                (Ok(true), Err(e)) => Err(e),
                (Ok(true), Ok(b)) => Ok(Val::Bool(b)),
            },
        ),
        BinaryOp::Or => Some(
            match (held(l), held(r)) {
                (Err(e), _) => Err(e),
                (Ok(true), _) => Ok(Val::Bool(true)),
                (Ok(false), Err(e)) => Err(e),
                (Ok(false), Ok(b)) => Ok(Val::Bool(b)),
            },
        ),
        _ => match (l, r) {
            (Err(e), _) => Some(Err(e)),
            (Ok(_), Err(e)) => Some(Err(e)),
            (Ok(a), Ok(b)) => applied(a, op, b),
        },
    }
}

/// What some standard functions give of values.
pub open spec fn given(name: Seq<char>, a: Seq<Val>) -> Option<Result<Val, Seq<char>>> {
    if name == "string"@ {
        Some(string(a, Val::Undefined))
    } else if name == "lowercase"@ {
        Some(lower(a, Val::Undefined))
    } else if name == "uppercase"@ {
        Some(upper(a, Val::Undefined))
    } else if name == "substring"@ {
        Some(substring(a))
    } else {
        None
    }
}

/// What an expression gives that is made of literals, names that stand for
/// something, their fields, operators and some standard functions, no deeper
/// than there is room. Anything else is left aside.
pub open spec fn meaning(nodes: Seq<Node>, id: NodeId, scope: Scope, room: nat) -> Option<Result<Val, Seq<char>>>
    decreases room, 0nat,
{
    if room == 0 {
        None
    } else {
        match node_at(nodes, id) {
            Some(Node::NumberLit { value, .. }) => Some(Ok(Val::Number(value))),
            Some(Node::StringLit { value, .. }) => Some(Ok(Val::String(value))),
            Some(Node::ValueLit { value, .. }) => if value == "true"@ {
                Some(Ok(Val::Bool(true)))
            } else if value == "false"@ {
                Some(Ok(Val::Bool(false)))
            } else if value == "null"@ {
                Some(Ok(Val::Null))
            } else {
                None
            },
            Some(Node::Variable { name, .. }) => Some(Ok(scope(name))),
            Some(Node::Path { steps, .. }) => if steps.len() == 2 {
                match (meaning(nodes, steps[0], scope, (room - 1) as nat), node_at(nodes, steps[1])) {
                    (Some(Ok(v)), Some(Node::Name { value, .. })) => Some(Ok(field_of(v, value))),
                    _ => None,
                }
            } else {
                None
            },
            Some(Node::Binary { op, lhs, rhs, .. }) => match (
                meaning(nodes, lhs, scope, (room - 1) as nat),
                meaning(nodes, rhs, scope, (room - 1) as nat),
            ) {
                (Some(l), Some(r)) => joined(l, op, r),
                _ => None,
            },
            Some(Node::Function { procedure, arguments, .. }) => match (
                node_at(nodes, procedure),
                meanings(nodes, arguments, scope, (room - 1) as nat),
            ) {
                (Some(Node::Variable { name, .. }), Some(a)) => given(name, a),
                _ => None,
            },
            _ => None,
        }
    }
}

/// The values that expressions give, if they all give one.
pub open spec fn meanings(nodes: Seq<Node>, ids: Seq<NodeId>, scope: Scope, room: nat) -> Option<Seq<Val>>
    decreases room, ids.len(),
{
    if ids.len() == 0 {
        Some(Seq::empty())
    } else {
        match (meanings(nodes, ids.drop_last(), scope, room), meaning(nodes, ids.last(), scope, room)) {
            (Some(s), Some(Ok(v))) => Some(s.push(v)),
            _ => None,
        }
    }
}

/// Enough room for every body that is worked out without a call.
pub open spec fn ample(nodes: Seq<Node>) -> nat {
    nodes.len() + 6
}

/// What a relation says of integers.
pub open spec fn relates(a: int, op: BinaryOp, b: int) -> bool {
    match op {
        BinaryOp::Lt => a < b,
        BinaryOp::Le => a <= b,
        BinaryOp::Gt => a > b,
        BinaryOp::Ge => a >= b,
        BinaryOp::Eq => a == b,
        _ => a != b,
    }
}

/// The operators that bodies apply say of whole numbers what they say of the
/// integers.
pub proof fn law_operators_on_whole_numbers(a: int, op: BinaryOp, b: int)
    requires
        0 <= a < WHOLE_LIMIT,
        0 <= b < WHOLE_LIMIT,
        simple_op(op),
    ensures
        ({
            let r = simple_result(Val::Number(Number::of_int(a)), op, Val::Number(Number::of_int(b)));
            &&& relational_op(op) ==> r == Ok::<Val, Seq<char>>(Val::Bool(relates(a, op, b)))
            &&& op == BinaryOp::Add && a + b < WHOLE_LIMIT ==> r == Ok::<Val, Seq<char>>(
                Val::Number(Number::of_int(a + b)),
            )
            &&& op == BinaryOp::Sub && a >= b ==> r == Ok::<Val, Seq<char>>(Val::Number(Number::of_int(a - b)))
            &&& op == BinaryOp::Mul && a * b < WHOLE_LIMIT ==> r == Ok::<Val, Seq<char>>(
                Val::Number(Number::of_int(a * b)),
            )
            &&& op == BinaryOp::Mod && b > 0 ==> r == Ok::<Val, Seq<char>>(Val::Number(Number::of_int(a % b)))
        }),
{
    law_whole_numbers_are_ordered(a, b);
    law_whole_numbers_are_ordered(b, a);
    law_whole_numbers_are_exact(a);
    law_whole_numbers_are_exact(b);
    if op == BinaryOp::Add && a + b < WHOLE_LIMIT {
        law_whole_sum(a, b);
        law_whole_numbers_are_exact(a + b);
    } else if op == BinaryOp::Sub && a >= b {
        law_whole_difference(a, b);
        law_whole_numbers_are_exact(a - b);
    } else if op == BinaryOp::Mul && a * b < WHOLE_LIMIT {
        assert(a * b >= 0) by (nonlinear_arith)
            requires
                a >= 0,
                b >= 0,
        ;
        law_whole_product(a, b);
        law_whole_numbers_are_exact(a * b);
    } else if op == BinaryOp::Mod && b > 0 {
        law_whole_remainder(a, b);
        law_whole_numbers_are_exact(a % b);
    }
}

// ── Parts of bodies ──────────────────────────────────────────────────────────

proof fn lemma_field(nodes: Seq<Node>, id: NodeId, param: Seq<char>, scope: Scope, room: nat)
    requires
        param_field(nodes, id, param) is Some,
        room >= 2,
    ensures
        meaning(nodes, id, scope, room) == Some(
            Ok::<Val, Seq<char>>(field_of(scope(param), param_field(nodes, id, param)->0)),
        ),
{
    reveal_with_fuel(meaning, 3);
}

proof fn lemma_literal(nodes: Seq<Node>, id: NodeId, scope: Scope, room: nat)
    requires
        literal_of(nodes, id) is Some,
        room >= 1,
    ensures
        meaning(nodes, id, scope, room) == Some(Ok::<Val, Seq<char>>(literal_of(nodes, id)->0)),
{
}

proof fn lemma_applied(a: Val, op: BinaryOp, b: Val)
    requires
        simple_op(op),
    ensures
        applied(a, op, b) == Some(simple_result(a, op, b)),
{
}

proof fn lemma_clause(
    nodes: Seq<Node>,
    op: BinaryOp,
    lhs: NodeId,
    rhs: NodeId,
    param: Seq<char>,
    scope: Scope,
    room: nat,
)
    requires
        simple_clause(nodes, op, lhs, rhs, param) is Some,
        room >= 2,
    ensures
        ({
            let c = simple_clause(nodes, op, lhs, rhs, param)->0;
            match (meaning(nodes, lhs, scope, room), meaning(nodes, rhs, scope, room)) {
                (Some(l), Some(r)) => joined(l, op, r) == Some(
                    simple_result(field_of(scope(param), c.field), c.op, c.literal),
                ),
                _ => false,
            }
        }),
{
    match (param_field(nodes, lhs, param), literal_of(nodes, rhs)) {
        (Some(field), Some(literal)) => {
            lemma_field(nodes, lhs, param, scope, room);
            lemma_literal(nodes, rhs, scope, room);
            lemma_applied(field_of(scope(param), field), op, literal);
        },
        _ => {
            let literal = literal_of(nodes, lhs)->0;
            let field = param_field(nodes, rhs, param)->0;
            lemma_literal(nodes, lhs, scope, room);
            lemma_field(nodes, rhs, param, scope, room);
            lemma_applied(literal, op, field_of(scope(param), field));
            law_literal_on_either_side(literal, op, field_of(scope(param), field));
        },
    }
}

/// Clauses one after another: the rest is looked at only where the first ones do
/// not decide.
proof fn lemma_clauses_apart(item: Val, a: Seq<Clause>, b: Seq<Clause>, all: bool, from: int)
    requires
        0 <= from <= a.len(),
    ensures
        clauses_held(item, a + b, all, from) == (match clauses_held(item, a, all, from) {
            Err(e) => Err(e),
            Ok(x) => if x != all {
                Ok(x)
            } else {
                clauses_held(item, b, all, 0)
            },
        }),
    decreases a.len() - from,
{
    if from < a.len() {
        assert((a + b)[from] == a[from]);
        lemma_clauses_apart(item, a, b, all, from + 1);
    } else {
        lemma_clauses_after(item, a, b, all, 0);
    }
}

proof fn lemma_clauses_after(item: Val, a: Seq<Clause>, b: Seq<Clause>, all: bool, from: int)
    requires
        0 <= from <= b.len(),
    ensures
        clauses_held(item, a + b, all, a.len() + from) == clauses_held(item, b, all, from),
    decreases b.len() - from,
{
    if from < b.len() {
        assert((a + b)[a.len() + from] == b[from]);
        lemma_clauses_after(item, a, b, all, from + 1);
    }
}

proof fn lemma_clauses(
    nodes: Seq<Node>,
    id: NodeId,
    param: Seq<char>,
    combiner: BinaryOp,
    room: nat,
    scope: Scope,
)
    requires
        combiner == BinaryOp::And || combiner == BinaryOp::Or,
        clauses_in(nodes, id, param, combiner, room) is Some,
    ensures
        match meaning(nodes, id, scope, room + 3) {
            Some(r) => held(r) == clauses_held(
                scope(param),
                clauses_in(nodes, id, param, combiner, room)->0,
                combiner == BinaryOp::And,
                0,
            ),
            None => false,
        },
    decreases room,
{
    match node_at(nodes, id) {
        Some(Node::Binary { op, lhs, rhs, .. }) => {
            if op == combiner {
                let less = (room - 1) as nat;
                let a = clauses_in(nodes, lhs, param, combiner, less)->0;
                let b = clauses_in(nodes, rhs, param, combiner, less)->0;
                lemma_clauses(nodes, lhs, param, combiner, less, scope);
                lemma_clauses(nodes, rhs, param, combiner, less, scope);
                lemma_clauses_apart(scope(param), a, b, combiner == BinaryOp::And, 0);
                assert((room + 3 - 1) as nat == less + 3);
            } else {
                lemma_clause(nodes, op, lhs, rhs, param, scope, (room + 2) as nat);
                let c = simple_clause(nodes, op, lhs, rhs, param)->0;
                assert(seq![c][0] == c);
                reveal_with_fuel(clauses_held, 2);
            }
        },
        _ => {},
    }
}

// ── Predicates ───────────────────────────────────────────────────────────────

/// What a body says that `$filter` tries on its own, of an item that its first
/// parameter names.
proof fn lemma_predicate(nodes: Seq<Node>, params: Seq<Seq<char>>, body: NodeId, scope: Scope)
    requires
        params.len() > 0,
        simple_body(nodes, params, body) matches Some(s) && (s is FieldPredicate || s is TwoFieldPredicate
            || s is CompoundPredicate),
    ensures
        match meaning(nodes, body, scope, ample(nodes)) {
            Some(r) => held_simply(simple_body(nodes, params, body)->0, scope(params[0])) == held(r),
            None => false,
        },
{
    let item = scope(params[0]);
    let room = (ample(nodes) - 1) as nat;
    match node_at(nodes, body) {
        Some(Node::Binary { op, lhs, rhs, .. }) => match simple_body(nodes, params, body)->0 {
            Simple::CompoundPredicate { clauses, combiner } => {
                let deep = (nodes.len() + 2) as nat;
                lemma_clauses_more(nodes, lhs, params[0], op, nodes.len(), deep);
                lemma_clauses_more(nodes, rhs, params[0], op, nodes.len(), deep);
                lemma_clauses(nodes, lhs, params[0], op, deep, scope);
                lemma_clauses(nodes, rhs, params[0], op, deep, scope);
                assert(room == deep + 3);
                let a = clauses_in(nodes, lhs, params[0], op, nodes.len())->0;
                let b = clauses_in(nodes, rhs, params[0], op, nodes.len())->0;
                lemma_clauses_apart(item, a, b, op == BinaryOp::And, 0);
            },
            Simple::TwoFieldPredicate { field1, op: o, field2 } => {
                lemma_field(nodes, lhs, params[0], scope, room);
                lemma_field(nodes, rhs, params[0], scope, room);
                lemma_applied(field_of(item, field1), op, field_of(item, field2));
            },
            _ => {
                lemma_clause(nodes, op, lhs, rhs, params[0], scope, room);
            },
        },
        _ => {},
    }
}

/// More room finds the same clauses.
proof fn lemma_clauses_more(
    nodes: Seq<Node>,
    id: NodeId,
    param: Seq<char>,
    combiner: BinaryOp,
    room: nat,
    more: nat,
)
    requires
        clauses_in(nodes, id, param, combiner, room) is Some,
        room <= more,
    ensures
        clauses_in(nodes, id, param, combiner, more) == clauses_in(nodes, id, param, combiner, room),
    decreases room,
{
    match node_at(nodes, id) {
        Some(Node::Binary { op, lhs, rhs, .. }) => {
            if op == combiner {
                lemma_clauses_more(nodes, lhs, param, combiner, (room - 1) as nat, (more - 1) as nat);
                lemma_clauses_more(nodes, rhs, param, combiner, (room - 1) as nat, (more - 1) as nat);
            }
        },
        _ => {},
    }
}

/// A predicate that `$filter` or `$single` tries on its own holds of an item
/// exactly when its body is true where the first parameter names the item.
pub proof fn law_predicate_means_its_body(nodes: Seq<Node>, func: Fun, scope: Scope, go_on: Val)
    requires
        filter_way(nodes, func) is Some,
    ensures
        meaning(nodes, func->body, scope, ample(nodes)) matches Some(r) && predicate_answer(
            filter_way(nodes, func),
            scope(func->params[0]),
            Ok(go_on),
        ) == held(r),
        single_way(nodes, func) is Some ==> single_way(nodes, func) == filter_way(nodes, func),
{
    lemma_predicate(nodes, func->params, func->body, scope);
}

/// A body that is a conjunction holds of an item exactly when both of its sides
/// do, and one that is a disjunction exactly when one of them does.
pub proof fn law_and_or(nodes: Seq<Node>, func: Fun, scope: Scope, go_on: Val, x: bool, y: bool)
    requires
        filter_way(nodes, func) is Some,
        node_at(nodes, func->body) matches Some(Node::Binary { op, lhs, rhs, .. }) && {
            &&& op == BinaryOp::And || op == BinaryOp::Or
            &&& meaning(nodes, lhs, scope, (ample(nodes) - 1) as nat) matches Some(l) && held(l) == Ok::<bool, Seq<char>>(x)
            &&& meaning(nodes, rhs, scope, (ample(nodes) - 1) as nat) matches Some(r) && held(r) == Ok::<bool, Seq<char>>(y)
        },
    ensures
        node_at(nodes, func->body) matches Some(Node::Binary { op, .. }) && predicate_answer(
            filter_way(nodes, func),
            scope(func->params[0]),
            Ok(go_on),
        ) == Ok::<bool, Seq<char>>(
            if op == BinaryOp::And {
                x && y
            } else {
                x || y
            },
        ),
{
    law_predicate_means_its_body(nodes, func, scope, go_on);
}

proof fn lemma_filtered<
    C: Fn(&FunctionValue, &Vec<Value>, &Value, Option<usize>) -> JsonataResult,
    P: Fn(usize) -> Result<(), JsonataError>,
>(call: C, poll: P, items: Seq<Val>, func: Fun, way: Option<Simple>, holds: spec_fn(Val) -> bool, answers: Seq<Answer>)
    requires
        filter_course(items, func, way).heard(call, poll, answers),
        forall|i: int, a: Answer|
            0 <= i < items.len() && #[trigger] may_answer(call, poll, predicate_ask(items, func, way, i), a)
                ==> match predicate_answer(way, items[i], a) {
                Ok(b) => b == holds(items[i]),
                Err(_) => true,
            },
    ensures
        ({
            let w = filter_course(items, func, way).after(answers);
            &&& 0 <= w.i <= items.len()
            &&& w.end is None ==> w.kept == items.take(w.i).filter(holds)
        }),
    decreases answers.len(),
{
    let course = filter_course(items, func, way);
    reveal(Seq::filter);
    if answers.len() == 0 {
        assert(items.take(0).filter(holds) =~= Seq::empty());
    } else {
        let k = answers.len() - 1;
        let before = answers.drop_last();
        assert(answers.take(k as int) =~= before);
        assert forall|j: int| 0 <= j < before.len() implies match course.next(#[trigger] before.take(j)) {
            Plan::Put(ask) => may_answer(call, poll, ask, before[j]),
            Plan::Finish(_) => false,
        } by {
            assert(before.take(j) =~= answers.take(j));
        }
        lemma_filtered(call, poll, items, func, way, holds, before);
        let w = course.after(before);
        assert(course.next(answers.take(k as int)) == (course.plan)(w));
        assert(may_answer(call, poll, predicate_ask(items, func, way, w.i), answers[k as int]));
        assert(items.take(w.i + 1).drop_last() =~= items.take(w.i));
        assert(items.take(w.i + 1).last() == items[w.i]);
    }
}

/// `$filter` keeps, in their order, exactly the items of which its function
/// holds.
pub proof fn law_filter_keeps_what_holds<
    C: Fn(&FunctionValue, &Vec<Value>, &Value, Option<usize>) -> JsonataResult,
    P: Fn(usize) -> Result<(), JsonataError>,
>(call: C, poll: P, items: Seq<Val>, func: Fun, way: Option<Simple>, holds: spec_fn(Val) -> bool, kept: Val)
    requires
        filter_course(items, func, way).ends(call, poll, Ok(kept)),
        forall|i: int, a: Answer|
            0 <= i < items.len() && #[trigger] may_answer(call, poll, predicate_ask(items, func, way, i), a)
                ==> match predicate_answer(way, items[i], a) {
                Ok(b) => b == holds(items[i]),
                Err(_) => true,
            },
    ensures
        kept == Val::Sequence(items.filter(holds)),
{
    let course = filter_course(items, func, way);
    let r = Ok::<Val, Seq<char>>(kept);
    let answers = choose|answers: Seq<Answer>| #[trigger]
        course.heard(call, poll, answers) && course.next(answers) == Plan::Finish(r);
    lemma_filtered(call, poll, items, func, way, holds, answers);
    assert(items.take(items.len() as int) =~= items);
}

/// With a body that it tries on its own, `$filter` keeps exactly the items for
/// which the body is true where its first parameter names the item.
pub proof fn law_filter_by_a_body<
    C: Fn(&FunctionValue, &Vec<Value>, &Value, Option<usize>) -> JsonataResult,
    P: Fn(usize) -> Result<(), JsonataError>,
>(call: C, poll: P, items: Seq<Val>, nodes: Seq<Node>, func: Fun, scope: spec_fn(Val) -> Scope, kept: Val)
    requires
        filter_way(nodes, func) is Some,
        filter_course(items, func, filter_way(nodes, func)).ends(call, poll, Ok(kept)),
        forall|item: Val| (#[trigger] scope(item))(func->params[0]) == item,
    ensures
        kept == Val::Sequence(
            items.filter(
                |item: Val|
                    meaning(nodes, func->body, scope(item), ample(nodes)) matches Some(r) && held(r) == Ok::<
                        bool,
                        Seq<char>,
                    >(true),
            ),
        ),
{
    let way = filter_way(nodes, func);
    let holds = |item: Val|
        meaning(nodes, func->body, scope(item), ample(nodes)) matches Some(r) && held(r) == Ok::<bool, Seq<char>>(true);
    assert forall|i: int, a: Answer|
        0 <= i < items.len() && #[trigger] may_answer(call, poll, predicate_ask(items, func, way, i), a) implies match predicate_answer(
        way,
        items[i],
        a,
    ) {
        Ok(b) => b == holds(items[i]),
        Err(_) => true,
    } by {
        if a is Ok {
            assert(scope(items[i])(func->params[0]) == items[i]);
            law_predicate_means_its_body(nodes, func, scope(items[i]), a->Ok_0);
        }
    }
    law_filter_keeps_what_holds(call, poll, items, func, way, holds, kept);
}

// ── Comparisons ──────────────────────────────────────────────────────────────

/// A comparison that `$sort` works out on its own says that the first of two
/// items comes before the second exactly when the body is true where the first
/// parameter names the second item and the other parameter the first.
pub proof fn law_comparison_means_its_body<
    C: Fn(&FunctionValue, &Vec<Value>, &Value, Option<usize>) -> JsonataResult,
>(nodes: Seq<Node>, func: Fun, call: &C, scope: Scope, r: Result<bool, Seq<char>>)
    requires
        fast_body(nodes, func) matches Some(s) && s is SortComparator,
    ensures
        sort_way(nodes, Some(func)) is Field,
        meaning(nodes, func->body, scope, ample(nodes)) matches Some(m) && (may_compare(
            sort_way(nodes, Some(func)),
            call,
            scope(func->params[1]),
            scope(func->params[0]),
            r,
        ) <==> r == held(m)),
{
    reveal(may_compare);
    let params = func->params;
    let room = (ample(nodes) - 1) as nat;
    match node_at(nodes, func->body) {
        Some(Node::Binary { op, lhs, rhs, .. }) => {
            lemma_field(nodes, lhs, params[0], scope, room);
            lemma_field(nodes, rhs, params[1], scope, room);
            let f = param_field(nodes, lhs, params[0])->0;
            lemma_applied(field_of(scope(params[0]), f), op, field_of(scope(params[1]), f));
        },
        _ => {},
    }
}

/// Whether an expression is a field of a name, and nothing more.
pub open spec fn is_field(nodes: Seq<Node>, id: NodeId, name: Seq<char>, field: Seq<char>) -> bool {
    &&& node_at(nodes, id) matches Some(Node::Path { steps, keep_singleton_array, .. })
    &&& !keep_singleton_array
    &&& steps.len() == 2
    &&& node_at(nodes, steps[0]) matches Some(Node::Variable { name: n, .. })
    &&& n == name
    &&& node_at(nodes, steps[1]) matches Some(Node::Name { value, keep_array, stages, group, focus, index, .. })
    &&& value == field
    &&& !keep_array && stages.len() == 0 && group is None && focus is None && index is None
}

/// Whether a function is `function($a, $b) { $a.f OP $b.f }`.
pub open spec fn compares_fields(nodes: Seq<Node>, func: Fun, field: Seq<char>, op: BinaryOp) -> bool {
    &&& func matches Fun::Lambda { params, body, typed, .. }
    &&& !typed
    &&& params.len() == 2
    &&& node_at(nodes, body) matches Some(Node::Binary { op: o, lhs, rhs, .. })
    &&& o == op
    &&& is_field(nodes, lhs, params[0], field)
    &&& is_field(nodes, rhs, params[1], field)
}

/// Whether a field of an item is a number, other than what is none.
pub open spec fn has_number(item: Val, field: Seq<char>) -> bool {
    field_of(item, field) matches Val::Number(n) && !n.nan()
}

/// The number that a field of an item is.
pub open spec fn number_at(item: Val, field: Seq<char>) -> Number {
    field_of(item, field)->Number_0
}

/// Sorted by `$a.f < $b.f`, items whose `f` are numbers stand with the greatest
/// first; by `$a.f > $b.f`, with the least first. Items whose `f` are the same
/// keep the order in which they came.
pub proof fn law_sort_by_a_field<C: Fn(&FunctionValue, &Vec<Value>, &Value, Option<usize>) -> JsonataResult>(
    nodes: Seq<Node>,
    func: Fun,
    field: Seq<char>,
    op: BinaryOp,
    call: &C,
    items: Seq<Val>,
    sorted: Seq<Val>,
    places: Seq<int>,
    i: int,
    j: int,
)
    requires
        compares_fields(nodes, func, field, op),
        op == BinaryOp::Lt || op == BinaryOp::Gt,
        in_places(sort_way(nodes, Some(func)), call, items, sorted, places),
        forall|k: int| 0 <= k < items.len() ==> has_number(#[trigger] items[k], field),
        0 <= i < j < sorted.len(),
    ensures
        op == BinaryOp::Lt ==> !number_at(sorted[i], field).lt_spec(number_at(sorted[j], field)),
        op == BinaryOp::Gt ==> !number_at(sorted[j], field).lt_spec(number_at(sorted[i], field)),
        number_at(sorted[i], field).eq_value(number_at(sorted[j], field)) ==> places[i] < places[j],
    decreases j - i,
{
    reveal(may_compare);
    let way = sort_way(nodes, Some(func));
    assert(way == SortWay::Field { field, op });
    let k = j - 1;
    assert(may_stand(way, call, items, places[k], places[k + 1]));
    assert(sorted[k] == items[places[k]]);
    assert(sorted[j] == items[places[j]]);
    assert(sorted[i] == items[places[i]]);
    assert(has_number(items[places[k]], field));
    assert(has_number(items[places[j]], field));
    assert(has_number(items[places[i]], field));
    if i < k {
        law_sort_by_a_field(nodes, func, field, op, call, items, sorted, places, i, k);
    }
}

// ── Accumulations ────────────────────────────────────────────────────────────

/// An accumulation that `$reduce` works out on its own gives what its body gives
/// where the first parameter names the accumulator and the second the item.
pub proof fn law_accumulation_means_its_body(nodes: Seq<Node>, func: Fun, scope: Scope)
    requires
        reduce_way(nodes, func) is Some,
    ensures
        meaning(nodes, func->body, scope, ample(nodes)) == Some(
            folded_simply(reduce_way(nodes, func)->0, scope(func->params[0]), scope(func->params[1])),
        ),
{
    let params = func->params;
    let room = (ample(nodes) - 1) as nat;
    match node_at(nodes, func->body) {
        Some(Node::Binary { op, lhs, rhs, .. }) => {
            assert(meaning(nodes, lhs, scope, room) == Some(Ok::<Val, Seq<char>>(scope(params[0]))));
            match param_field(nodes, rhs, params[1]) {
                Some(f) => {
                    lemma_field(nodes, rhs, params[1], scope, room);
                    lemma_applied(scope(params[0]), op, field_of(scope(params[1]), f));
                },
                None => match node_at(nodes, rhs) {
                    Some(Node::Binary { op: inner, lhs: l, rhs: r, .. }) => {
                        lemma_field(nodes, l, params[1], scope, (room - 1) as nat);
                        lemma_field(nodes, r, params[1], scope, (room - 1) as nat);
                        let a = field_of(scope(params[1]), param_field(nodes, l, params[1])->0);
                        let b = field_of(scope(params[1]), param_field(nodes, r, params[1])->0);
                        lemma_applied(a, inner, b);
                        assert(meaning(nodes, rhs, scope, room) == Some(simple_result(a, inner, b)));
                        if simple_result(a, inner, b) is Ok {
                            lemma_applied(scope(params[0]), op, simple_result(a, inner, b)->Ok_0);
                        }
                    },
                    _ => {},
                },
            }
        },
        _ => {},
    }
}

// ── Fields and texts ─────────────────────────────────────────────────────────

/// Whether the whole parts of all number literals can be counted with exactly.
pub open spec fn modest(nodes: Seq<Node>) -> bool {
    forall|i: int|
        0 <= i < nodes.len() ==> match #[trigger] nodes[i] {
            Node::NumberLit { value, .. } => -WHOLE_LIMIT <= value.saturated(i64::MIN as int, i64::MAX as int)
                <= WHOLE_LIMIT && value.saturated(0, usize::MAX as int) <= WHOLE_LIMIT,
            _ => true,
        }
}

proof fn lemma_substring(v: Val, n: Number, start: i64)
    requires
        start == n.saturated(i64::MIN as int, i64::MAX as int),
        -WHOLE_LIMIT <= start <= WHOLE_LIMIT,
    ensures
        substring(seq![v, Val::Number(n)]) == substring(seq![v, Val::Number(Number::of_int(start as int))]),
{
    law_whole_numbers_come_back(start as int, i64::MIN as int, i64::MAX as int);
}

proof fn lemma_substring_to(v: Val, n: Number, start: i64, l: Number, length: usize)
    requires
        start == n.saturated(i64::MIN as int, i64::MAX as int),
        -WHOLE_LIMIT <= start <= WHOLE_LIMIT,
        length == l.saturated(0, usize::MAX as int),
        length <= WHOLE_LIMIT,
    ensures
        substring(seq![v, Val::Number(n), Val::Number(l)]) == substring(
            seq![v, Val::Number(Number::of_int(start as int)), Val::Number(Number::of_int(length as int))],
        ),
{
    law_whole_numbers_come_back(start as int, i64::MIN as int, i64::MAX as int);
    law_whole_numbers_come_back(length as int, 0, usize::MAX as int);
}

proof fn lemma_one(nodes: Seq<Node>, ids: Seq<NodeId>, scope: Scope, room: nat, a: Val)
    requires
        ids.len() == 1,
        meaning(nodes, ids[0], scope, room) == Some(Ok::<Val, Seq<char>>(a)),
    ensures
        meanings(nodes, ids, scope, room) == Some(seq![a]),
{
    assert(meanings(nodes, ids.drop_last(), scope, room) == Some(Seq::<Val>::empty()));
    assert(Seq::<Val>::empty().push(a) =~= seq![a]);
}

proof fn lemma_two(nodes: Seq<Node>, ids: Seq<NodeId>, scope: Scope, room: nat, a: Val, b: Val)
    requires
        ids.len() == 2,
        meaning(nodes, ids[0], scope, room) == Some(Ok::<Val, Seq<char>>(a)),
        meaning(nodes, ids[1], scope, room) == Some(Ok::<Val, Seq<char>>(b)),
    ensures
        meanings(nodes, ids, scope, room) == Some(seq![a, b]),
{
    lemma_one(nodes, ids.drop_last(), scope, room, a);
    assert(seq![a].push(b) =~= seq![a, b]);
}

proof fn lemma_three(nodes: Seq<Node>, ids: Seq<NodeId>, scope: Scope, room: nat, a: Val, b: Val, c: Val)
    requires
        ids.len() == 3,
        meaning(nodes, ids[0], scope, room) == Some(Ok::<Val, Seq<char>>(a)),
        meaning(nodes, ids[1], scope, room) == Some(Ok::<Val, Seq<char>>(b)),
        meaning(nodes, ids[2], scope, room) == Some(Ok::<Val, Seq<char>>(c)),
    ensures
        meanings(nodes, ids, scope, room) == Some(seq![a, b, c]),
{
    lemma_two(nodes, ids.drop_last(), scope, room, a, b);
    assert(seq![a, b].push(c) =~= seq![a, b, c]);
}

proof fn lemma_names()
    ensures
        "substring"@ != "string"@,
        "substring"@ != "lowercase"@,
        "substring"@ != "uppercase"@,
{
    reveal_strlit("string");
    reveal_strlit("lowercase");
    reveal_strlit("uppercase");
    reveal_strlit("substring");
    assert("substring"@[1] == 'u' && "lowercase"@[1] == 'o' && "uppercase"@[1] == 'p');
}

/// What a piece says whose text a function gives.
pub open spec fn piece_says(t: Result<Seq<char>, Seq<char>>, r: Option<Result<Val, Seq<char>>>) -> bool {
    match r {
        Some(Ok(v)) => t == text_in(v),
        Some(Err(e)) => t == Err::<Seq<char>, Seq<char>>(e),
        None => false,
    }
}

proof fn lemma_one_says(item: Val, name: Seq<char>, field: Seq<char>)
    ensures
        ({
            let r = given(name, seq![field_of(item, field)]);
            &&& name == "string"@ ==> piece_says(piece_text(item, Piece::StringifyField(field)), r)
            &&& name == "lowercase"@ && name != "string"@ ==> piece_says(
                piece_text(item, Piece::LowercaseField(field)),
                r,
            )
            &&& name == "uppercase"@ && name != "lowercase"@ && name != "string"@ ==> piece_says(
                piece_text(item, Piece::UppercaseField(field)),
                r,
            )
        }),
{
    let v = field_of(item, field);
    assert(seq![v].len() == 1 && seq![v][0] == v);
}

proof fn lemma_substring_says(item: Val, field: Seq<char>, start: i64, length: Option<usize>, args: Seq<Val>)
    requires
        substring(args) == substring(substring_args(field_of(item, field), start, length)),
    ensures
        piece_says(
            piece_text(item, Piece::SubstringField { field, start, length }),
            given("substring"@, args),
        ),
{
    lemma_names();
    let r = substring(args);
    assert(given("substring"@, args) == Some(r));
    assert(match r {
        Ok(v) => v is String || v is Undefined,
        Err(_) => true,
    });
}

proof fn lemma_call_piece(nodes: Seq<Node>, name: Seq<char>, a: Seq<NodeId>, param: Seq<char>, scope: Scope, room: nat)
    requires
        call_piece(nodes, name, a, param) is Some,
        modest(nodes),
        room >= 2,
    ensures
        meanings(nodes, a, scope, room) matches Some(args) && piece_says(
            piece_text(scope(param), call_piece(nodes, name, a, param)->0),
            given(name, args),
        ),
{
    lemma_field(nodes, a[0], param, scope, room);
    let v = field_of(scope(param), param_field(nodes, a[0], param)->0);
    let item = scope(param);
    let field = param_field(nodes, a[0], param)->0;
    lemma_names();
    if name == "substring"@ {
        lemma_literal(nodes, a[1], scope, room);
        let n = node_at(nodes, a[1])->Some_0->NumberLit_value;
        let start = n.saturated(i64::MIN as int, i64::MAX as int) as i64;
        assert(nodes[a[1].index as int] is NumberLit);
        if a.len() == 2 {
            lemma_two(nodes, a, scope, room, v, Val::Number(n));
            lemma_substring(v, n, start);
            lemma_substring_says(item, field, start, None, seq![v, Val::Number(n)]);
        } else {
            lemma_literal(nodes, a[2], scope, room);
            let l = node_at(nodes, a[2])->Some_0->NumberLit_value;
            let length = l.saturated(0, usize::MAX as int) as usize;
            assert(nodes[a[2].index as int] is NumberLit);
            lemma_three(nodes, a, scope, room, v, Val::Number(n), Val::Number(l));
            lemma_substring_to(v, n, start, l, length);
            lemma_substring_says(item, field, start, Some(length), seq![v, Val::Number(n), Val::Number(l)]);
        }
    } else {
        lemma_one(nodes, a, scope, room, v);
        lemma_one_says(item, name, field);
    }
}

/// What a piece says: the text of what the expression gives.
proof fn lemma_piece(nodes: Seq<Node>, id: NodeId, param: Seq<char>, scope: Scope, room: nat)
    requires
        piece_of(nodes, id, param) is Some,
        modest(nodes),
        room >= 3,
    ensures
        match meaning(nodes, id, scope, room) {
            Some(Ok(v)) => piece_text(scope(param), piece_of(nodes, id, param)->0) == text_in(v),
            Some(Err(e)) => piece_text(scope(param), piece_of(nodes, id, param)->0) == Err::<Seq<char>, Seq<char>>(e),
            None => false,
        },
{
    let less = (room - 1) as nat;
    match node_at(nodes, id) {
        Some(Node::Path { .. }) => {
            lemma_field(nodes, id, param, scope, room);
        },
        Some(Node::Function { procedure, arguments, .. }) => {
            let name = node_at(nodes, procedure)->Some_0->Variable_name;
            lemma_call_piece(nodes, name, arguments, param, scope, less);
        },
        _ => {},
    }
}

proof fn lemma_template(nodes: Seq<Node>, id: NodeId, param: Seq<char>, scope: Scope, room: nat)
    requires
        operands(nodes, id, room) matches Some(ids) && pieces_in(nodes, ids, param) is Some,
        modest(nodes),
    ensures
        ({
            let ids = operands(nodes, id, room)->0;
            let pieces = pieces_in(nodes, ids, param)->0;
            match (template_text(scope(param), pieces), meaning(nodes, id, scope, room + 4)) {
                (Ok(t), Some(Ok(v))) => text_in(v) == Ok::<Seq<char>, Seq<char>>(t) && (ids.len() > 1 ==> v
                    == Val::String(t)),
                (Err(_), Some(Ok(v))) => text_in(v) is Err,
                (Err(_), Some(Err(_))) => true,
                _ => false,
            }
        }),
        operands(nodes, id, room)->0.len() >= 1,
    decreases room,
{
    let ids = operands(nodes, id, room)->0;
    let pieces = pieces_in(nodes, ids, param)->0;
    match node_at(nodes, id) {
        Some(Node::Binary { op: BinaryOp::Concat, lhs, rhs, .. }) => {
            let before = operands(nodes, lhs, (room - 1) as nat)->0;
            assert(ids.drop_last() =~= before);
            lemma_template(nodes, lhs, param, scope, (room - 1) as nat);
            lemma_piece(nodes, rhs, param, scope, (room + 3) as nat);
            assert(pieces.drop_last() =~= pieces_in(nodes, before, param)->0);
            assert((room + 4 - 1) as nat == (room - 1) as nat + 4);
        },
        _ => {
            assert(ids.drop_last() =~= Seq::empty());
            lemma_piece(nodes, id, param, scope, (room + 4) as nat);
            reveal_with_fuel(pieces_in, 2);
            reveal_with_fuel(template_text, 2);
            assert(pieces.drop_last() =~= Seq::empty());
            assert(pieces.len() == 1 && pieces[0] == piece_of(nodes, id, param)->0);
            match piece_text(scope(param), pieces[0]) {
                Ok(t) => {
                    assert(Seq::<char>::empty() + t =~= t);
                },
                Err(_) => {},
            }
        },
    }
}

/// A body that `$map` works out on its own gives what it gives where its first
/// parameter names the item, and fails where that does.
pub proof fn law_mapping_means_its_body(nodes: Seq<Node>, func: Fun, found: Val, scope: Scope)
    requires
        map_way(nodes, func, found) is Simple,
        modest(nodes),
    ensures
        match (
            mapped_simply(map_way(nodes, func, found)->Simple_0, scope(func->params[0])),
            meaning(nodes, func->body, scope, ample(nodes)),
        ) {
            (Ok(v), Some(Ok(w))) => v == w,
            (Err(_), Some(Err(_))) => true,
            _ => false,
        },
{
    let params = func->params;
    match node_at(nodes, func->body) {
        Some(Node::Path { .. }) => {
            lemma_field(nodes, func->body, params[0], scope, ample(nodes));
        },
        Some(Node::Binary { op, lhs, rhs, .. }) => {
            assert(template_in(nodes, func->body, params[0]) is Some);
            let ids = operands(nodes, func->body, nodes.len())->0;
            lemma_operands_more(nodes, func->body, nodes.len(), nodes.len() + 2);
            lemma_template(nodes, func->body, params[0], scope, nodes.len() + 2);
        },
        _ => {},
    }
}

proof fn lemma_operands_more(nodes: Seq<Node>, id: NodeId, room: nat, more: nat)
    requires
        operands(nodes, id, room) is Some,
        room <= more,
    ensures
        operands(nodes, id, more) == operands(nodes, id, room),
    decreases room,
{
    match node_at(nodes, id) {
        Some(Node::Binary { op: BinaryOp::Concat, lhs, rhs, .. }) => {
            lemma_operands_more(nodes, lhs, (room - 1) as nat, (more - 1) as nat);
        },
        _ => {},
    }
}

} // verus!
