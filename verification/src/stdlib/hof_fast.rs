//! Functions that need no evaluator: the bodies that higher-order functions
//! can work out on their own, and calls whose arguments are fields of an item.
use vstd::prelude::*;

use super::format_number::{
    default_marks, format_number, format_number_value, formatted_by, prepare_sub_pictures, prepared, workable, FmtChars,
    Plan as Picture, SubPicture,
};
use super::host::{ask_call, may_return};
use super::numeric::{bankers_round, fn_format_base, format_base, round_result, rounded_at};
use super::string_funcs::{contains, fn_lowercase, fn_substring, fn_uppercase, lower, substring, upper};
use crate::error::{out, JsonataError, JsonataResult};
use crate::number::Number;
use crate::parser::ast::{copy_ids, node_at, AstArena, BinaryOp, Expr, Node, NodeId};
use crate::stringify::{appended, stringified};
use crate::text::{chars_of, find_seq, find_text, is_text, push_text, text_of};
use crate::value::{
    apply_arithmetic, arithmetic, arithmetic_op, collapsed, compared, equal_vals, member, ordered, out_order, texts,
    vals, Callable, Code, CompareOp, Fun, FunctionValue, Sequence, Val, Value,
};

verus! {

// ── Fields ───────────────────────────────────────────────────────────────────

/// The values that a name leads to in items: those of objects, with arrays
/// spread out.
pub open spec fn gathered(items: Seq<Val>, name: Seq<char>) -> Seq<Val>
    decreases items,
{
    if items.len() == 0 {
        Seq::empty()
    } else {
        gathered(items.drop_last(), name) + (match items.last() {
            Val::Object(o) => match member(o, name) {
                Some(Val::Array(a)) => a,
                Some(Val::Undefined) => Seq::empty(),
                Some(v) => seq![v],
                None => Seq::empty(),
            },
            Val::Array(inner) => gathered(inner, name),
            _ => Seq::empty(),
        })
    }
}

/// The value that a name leads to: of an object its member, of an array what
/// its elements have, collapsed.
pub open spec fn field_of(item: Val, name: Seq<char>) -> Val {
    match item {
        Val::Object(o) => match member(o, name) {
            Some(v) => v,
            None => Val::Undefined,
        },
        Val::Array(a) => collapsed(gathered(a, name)),
        _ => Val::Undefined,
    }
}

fn gather(items: &Vec<Value>, name: &str) -> (r: Vec<Value>)
    ensures
        vals(r@) == gathered(vals(items@), name@),
    decreases items,
{
    let ghost all = vals(items@);
    let mut r: Vec<Value> = Vec::new();
    let mut i: usize = 0;
    assert(all.take(0) =~= Seq::empty());
    assert(vals(r@) =~= Seq::empty());
    while i < items.len()
        invariant
            i <= items.len(),
            all == vals(items@),
            vals(r@) == gathered(all.take(i as int), name@),
        decreases items.len() - i,
    {
        assert(all.take(i + 1).drop_last() =~= all.take(i as int));
        assert(all[i as int] == items@[i as int]@);
        let ghost before = r@;
        match &items[i] {
            Value::Object(o) => match o.get(name) {
                Some(Value::Array(a)) => {
                    let mut more = crate::value::clone_all(a);
                    let ghost m = more@;
                    r.append(&mut more);
                    assert(vals(r@) =~= vals(before) + vals(m));
                },
                Some(Value::Undefined) => {
                    assert(vals(r@) =~= vals(before) + Seq::<Val>::empty());
                },
                Some(v) => {
                    let x = v.clone();
                    r.push(x);
                    assert(vals(r@) =~= vals(before) + seq![x@]);
                },
                None => {
                    assert(vals(r@) =~= vals(before) + Seq::<Val>::empty());
                },
            },
            Value::Array(inner) => {
                assert(decreases_to!(items => items@[i as int]));
                let mut more = gather(inner, name);
                let ghost m = more@;
                r.append(&mut more);
                assert(vals(r@) =~= vals(before) + vals(m));
            },
            _ => {
                assert(vals(r@) =~= vals(before) + Seq::<Val>::empty());
            },
        }
        i = i + 1;
    }
    assert(all.take(i as int) =~= all);
    r
}

/// The value that a name leads to.
pub fn get_field(item: &Value, field: &str) -> (r: Value)
    ensures
        r@ == field_of(item@, field@),
{
    match item {
        Value::Object(o) => match o.get(field) {
            Some(v) => v.clone(),
            None => Value::Undefined,
        },
        Value::Array(a) => Sequence::with_items(gather(a, field)).into_value(),
        _ => Value::Undefined,
    }
}

// ── Simple bodies ────────────────────────────────────────────────────────────

/// A body that needs no evaluator.
#[derive(Debug)]
pub enum SimpleLambda {
    /// A field of the parameter.
    FieldAccess { field: String },
    /// A field with a literal.
    FieldPredicate { field: String, op: BinaryOp, literal: Value },
    /// Two fields of the parameter.
    TwoFieldPredicate { field1: String, op: BinaryOp, field2: String },
    /// The same field of both parameters.
    SortComparator { field: String, op: BinaryOp },
    /// The first parameter with a field of the second.
    ReduceAccum { field: String, op: BinaryOp },
    /// The first parameter with two fields of the second.
    ReduceCompoundAccum { field1: String, field2: String, outer_op: BinaryOp, inner_op: BinaryOp },
    /// Texts put together.
    ConcatTemplate { pieces: Vec<TemplatePiece> },
    /// Fields with literals, all or any of which must hold.
    CompoundPredicate { clauses: Vec<PredicateClause>, combiner: BinaryOp },
}

/// A field with a literal.
#[derive(Debug)]
pub struct PredicateClause {
    pub field: String,
    pub op: BinaryOp,
    pub literal: Value,
}

/// A piece of text that is put together from others.
#[derive(Debug)]
pub enum TemplatePiece {
    Literal(String),
    /// A field, as text.
    Field(String),
    /// `$string` of a field.
    StringifyField(String),
    /// `$substring` of a field.
    SubstringField { field: String, start: i64, length: Option<usize> },
    /// `$lowercase` of a field.
    LowercaseField(String),
    /// `$uppercase` of a field.
    UppercaseField(String),
}

/// A body that needs no evaluator, as contracts speak of it.
pub enum Simple {
    FieldAccess { field: Seq<char> },
    FieldPredicate { field: Seq<char>, op: BinaryOp, literal: Val },
    TwoFieldPredicate { field1: Seq<char>, op: BinaryOp, field2: Seq<char> },
    SortComparator { field: Seq<char>, op: BinaryOp },
    ReduceAccum { field: Seq<char>, op: BinaryOp },
    ReduceCompoundAccum { field1: Seq<char>, field2: Seq<char>, outer_op: BinaryOp, inner_op: BinaryOp },
    ConcatTemplate { pieces: Seq<Piece> },
    CompoundPredicate { clauses: Seq<Clause>, combiner: BinaryOp },
}

pub struct Clause {
    pub field: Seq<char>,
    pub op: BinaryOp,
    pub literal: Val,
}

pub enum Piece {
    Literal(Seq<char>),
    Field(Seq<char>),
    StringifyField(Seq<char>),
    SubstringField { field: Seq<char>, start: i64, length: Option<usize> },
    LowercaseField(Seq<char>),
    UppercaseField(Seq<char>),
}

impl View for PredicateClause {
    type V = Clause;

    open spec fn view(&self) -> Clause {
        Clause { field: self.field@, op: self.op, literal: self.literal@ }
    }
}

impl View for TemplatePiece {
    type V = Piece;

    open spec fn view(&self) -> Piece {
        match *self {
            TemplatePiece::Literal(s) => Piece::Literal(s@),
            TemplatePiece::Field(f) => Piece::Field(f@),
            TemplatePiece::StringifyField(f) => Piece::StringifyField(f@),
            TemplatePiece::SubstringField { field, start, length } => Piece::SubstringField {
                field: field@,
                start,
                length,
            },
            TemplatePiece::LowercaseField(f) => Piece::LowercaseField(f@),
            TemplatePiece::UppercaseField(f) => Piece::UppercaseField(f@),
        }
    }
}

pub open spec fn clauses_of(s: Seq<PredicateClause>) -> Seq<Clause> {
    s.map_values(|c: PredicateClause| c@)
}

pub open spec fn pieces_of(s: Seq<TemplatePiece>) -> Seq<Piece> {
    s.map_values(|p: TemplatePiece| p@)
}

impl View for SimpleLambda {
    type V = Simple;

    open spec fn view(&self) -> Simple {
        match *self {
            SimpleLambda::FieldAccess { field } => Simple::FieldAccess { field: field@ },
            SimpleLambda::FieldPredicate { field, op, literal } => Simple::FieldPredicate {
                field: field@,
                op,
                literal: literal@,
            },
            SimpleLambda::TwoFieldPredicate { field1, op, field2 } => Simple::TwoFieldPredicate {
                field1: field1@,
                op,
                field2: field2@,
            },
            SimpleLambda::SortComparator { field, op } => Simple::SortComparator { field: field@, op },
            SimpleLambda::ReduceAccum { field, op } => Simple::ReduceAccum { field: field@, op },
            SimpleLambda::ReduceCompoundAccum { field1, field2, outer_op, inner_op } => Simple::ReduceCompoundAccum {
                field1: field1@,
                field2: field2@,
                outer_op,
                inner_op,
            },
            SimpleLambda::ConcatTemplate { pieces } => Simple::ConcatTemplate { pieces: pieces_of(pieces@) },
            SimpleLambda::CompoundPredicate { clauses, combiner } => Simple::CompoundPredicate {
                clauses: clauses_of(clauses@),
                combiner,
            },
        }
    }
}

// ── Recognising simple bodies ────────────────────────────────────────────────

pub open spec fn relational_op(op: BinaryOp) -> bool {
    op == BinaryOp::Gt || op == BinaryOp::Lt || op == BinaryOp::Ge || op == BinaryOp::Le || op == BinaryOp::Eq || op
        == BinaryOp::Ne
}

/// Whether an operator is one that `eval_binary_simple` applies.
pub open spec fn simple_op(op: BinaryOp) -> bool {
    relational_op(op) || arithmetic_op(op)
}

/// An operator for the operands in the other order.
pub open spec fn flipped(op: BinaryOp) -> BinaryOp {
    match op {
        BinaryOp::Gt => BinaryOp::Lt,
        BinaryOp::Lt => BinaryOp::Gt,
        BinaryOp::Ge => BinaryOp::Le,
        BinaryOp::Le => BinaryOp::Ge,
        _ => op,
    }
}

/// Whether a literal may change sides: an ordering operator looks at the left
/// operand first, so only numbers and text may.
pub open spec fn mirrorable(op: BinaryOp, literal: Val) -> bool {
    op == BinaryOp::Eq || op == BinaryOp::Ne || literal is Number || literal is String
}

/// Whether a node is a parameter.
pub open spec fn is_param(nodes: Seq<Node>, id: NodeId, param: Seq<char>) -> bool {
    match node_at(nodes, id) {
        Some(Node::Variable { name, .. }) => name == param,
        _ => false,
    }
}

/// The name of a field, if a node is that and nothing more.
pub open spec fn plain_field(nodes: Seq<Node>, id: NodeId) -> Option<Seq<char>> {
    match node_at(nodes, id) {
        Some(Node::Name { value, keep_array, stages, group, focus, index, .. }) => if !keep_array && stages.len() == 0
            && group is None && focus is None && index is None {
            Some(value)
        } else {
            None
        },
        _ => None,
    }
}

/// The field of a parameter that a node is, if it is that and nothing more.
pub open spec fn param_field(nodes: Seq<Node>, id: NodeId, param: Seq<char>) -> Option<Seq<char>> {
    match node_at(nodes, id) {
        Some(Node::Path { steps, keep_singleton_array, .. }) => if !keep_singleton_array && steps.len() == 2
            && is_param(nodes, steps[0], param) {
            plain_field(nodes, steps[1])
        } else {
            None
        },
        _ => None,
    }
}

/// The value of a word that stands for one.
pub open spec fn word_literal(w: Seq<char>) -> Option<Val> {
    if w == "true"@ {
        Some(Val::Bool(true))
    } else if w == "false"@ {
        Some(Val::Bool(false))
    } else if w == "null"@ {
        Some(Val::Null)
    } else {
        None
    }
}

/// The value of a literal.
pub open spec fn literal_of(nodes: Seq<Node>, id: NodeId) -> Option<Val> {
    match node_at(nodes, id) {
        Some(Node::NumberLit { value, .. }) => Some(Val::Number(value)),
        Some(Node::StringLit { value, .. }) => Some(Val::String(value)),
        Some(Node::ValueLit { value, .. }) => word_literal(value),
        _ => None,
    }
}

/// A field and a literal, in either order.
pub open spec fn simple_clause(nodes: Seq<Node>, op: BinaryOp, lhs: NodeId, rhs: NodeId, param: Seq<char>) -> Option<
    Clause,
> {
    if !simple_op(op) {
        None
    } else {
        match (param_field(nodes, lhs, param), literal_of(nodes, rhs)) {
            (Some(field), Some(literal)) => Some(Clause { field, op, literal }),
            _ => match (literal_of(nodes, lhs), param_field(nodes, rhs, param)) {
                (Some(literal), Some(field)) if relational_op(op) && mirrorable(op, literal) => Some(
                    Clause { field, op: flipped(op), literal },
                ),
                _ => None,
            },
        }
    }
}

/// The clauses of a tree of one combining operator, no deeper than there is
/// room.
pub open spec fn clauses_in(nodes: Seq<Node>, id: NodeId, param: Seq<char>, combiner: BinaryOp, room: nat) -> Option<
    Seq<Clause>,
>
    decreases room,
{
    match node_at(nodes, id) {
        Some(Node::Binary { op, lhs, rhs, .. }) => if op == combiner {
            if room == 0 {
                None
            } else {
                match (
                    clauses_in(nodes, lhs, param, combiner, (room - 1) as nat),
                    clauses_in(nodes, rhs, param, combiner, (room - 1) as nat),
                ) {
                    (Some(a), Some(b)) => Some(a + b),
                    _ => None,
                }
            }
        } else {
            match simple_clause(nodes, op, lhs, rhs, param) {
                Some(c) => Some(seq![c]),
                None => None,
            }
        },
        _ => None,
    }
}

/// The operands of a chain of concatenations, no longer than there is room.
pub open spec fn operands(nodes: Seq<Node>, id: NodeId, room: nat) -> Option<Seq<NodeId>>
    decreases room,
{
    match node_at(nodes, id) {
        Some(Node::Binary { op: BinaryOp::Concat, lhs, rhs, .. }) => if room == 0 {
            None
        } else {
            match operands(nodes, lhs, (room - 1) as nat) {
                Some(s) => Some(s.push(rhs)),
                None => None,
            }
        },
        _ => Some(seq![id]),
    }
}

/// The value of a number literal.
pub open spec fn number_literal(nodes: Seq<Node>, id: NodeId) -> Option<Number> {
    match node_at(nodes, id) {
        Some(Node::NumberLit { value, .. }) => Some(value),
        _ => None,
    }
}

/// The piece of text that a call of a standard function on a field is.
pub open spec fn call_piece(nodes: Seq<Node>, name: Seq<char>, a: Seq<NodeId>, param: Seq<char>) -> Option<Piece> {
    if a.len() == 0 {
        None
    } else {
        match param_field(nodes, a[0], param) {
            None => None,
            Some(field) => if name == "string"@ && a.len() == 1 {
                Some(Piece::StringifyField(field))
            } else if name == "lowercase"@ && a.len() == 1 {
                Some(Piece::LowercaseField(field))
            } else if name == "uppercase"@ && a.len() == 1 {
                Some(Piece::UppercaseField(field))
            } else if name == "substring"@ && 2 <= a.len() <= 3 {
                match number_literal(nodes, a[1]) {
                    None => None,
                    Some(n) => {
                        let start = n.saturated(i64::MIN as int, i64::MAX as int) as i64;
                        if a.len() == 2 {
                            Some(Piece::SubstringField { field, start, length: None })
                        } else {
                            match number_literal(nodes, a[2]) {
                                Some(l) => if !l.lt_spec(Number::of_int(0)) && !l.nan() {
                                    Some(
                                        Piece::SubstringField {
                                            field,
                                            start,
                                            length: Some(l.saturated(0, usize::MAX as int) as usize),
                                        },
                                    )
                                } else {
                                    None
                                },
                                None => None,
                            }
                        }
                    },
                }
            } else {
                None
            },
        }
    }
}

/// The piece of text that an operand of a concatenation is.
pub open spec fn piece_of(nodes: Seq<Node>, id: NodeId, param: Seq<char>) -> Option<Piece> {
    match node_at(nodes, id) {
        Some(Node::StringLit { value, .. }) => Some(Piece::Literal(value)),
        Some(Node::Path { .. }) => match param_field(nodes, id, param) {
            Some(f) => Some(Piece::Field(f)),
            None => None,
        },
        Some(Node::Function { procedure, arguments, .. }) => match node_at(nodes, procedure) {
            Some(Node::Variable { name, .. }) => call_piece(nodes, name, arguments, param),
            _ => None,
        },
        _ => None,
    }
}

/// The pieces of text that operands are, if they all are.
pub open spec fn pieces_in(nodes: Seq<Node>, ids: Seq<NodeId>, param: Seq<char>) -> Option<Seq<Piece>>
    decreases ids.len(),
{
    if ids.len() == 0 {
        Some(Seq::empty())
    } else {
        match (pieces_in(nodes, ids.drop_last(), param), piece_of(nodes, ids.last(), param)) {
            (Some(s), Some(p)) => Some(s.push(p)),
            _ => None,
        }
    }
}

/// The pieces of text that a concatenation puts together.
pub open spec fn template_in(nodes: Seq<Node>, body: NodeId, param: Seq<char>) -> Option<Seq<Piece>> {
    match operands(nodes, body, nodes.len()) {
        Some(ids) => if ids.len() < 2 {
            None
        } else {
            pieces_in(nodes, ids, param)
        },
        None => None,
    }
}

/// An accumulator with fields of an item.
pub open spec fn accumulation(nodes: Seq<Node>, op: BinaryOp, lhs: NodeId, rhs: NodeId, params: Seq<Seq<char>>) -> Option<
    Simple,
> {
    if params.len() >= 2 && arithmetic_op(op) && is_param(nodes, lhs, params[0]) {
        match param_field(nodes, rhs, params[1]) {
            Some(field) => Some(Simple::ReduceAccum { field, op }),
            None => match node_at(nodes, rhs) {
                Some(Node::Binary { op: inner_op, lhs: l, rhs: r, .. }) => match (
                    param_field(nodes, l, params[1]),
                    param_field(nodes, r, params[1]),
                ) {
                    (Some(field1), Some(field2)) if arithmetic_op(inner_op) => Some(
                        Simple::ReduceCompoundAccum { field1, field2, outer_op: op, inner_op },
                    ),
                    _ => None,
                },
                _ => None,
            },
        }
    } else {
        None
    }
}

/// The same field of both parameters, compared.
pub open spec fn comparison(nodes: Seq<Node>, op: BinaryOp, lhs: NodeId, rhs: NodeId, params: Seq<Seq<char>>) -> Option<
    Simple,
> {
    if params.len() == 2 && relational_op(op) {
        match (param_field(nodes, lhs, params[0]), param_field(nodes, rhs, params[1])) {
            (Some(a), Some(b)) if a == b => Some(Simple::SortComparator { field: a, op }),
            _ => None,
        }
    } else {
        None
    }
}

/// Fields with literals, all or any of which must hold.
pub open spec fn compound(nodes: Seq<Node>, op: BinaryOp, lhs: NodeId, rhs: NodeId, params: Seq<Seq<char>>) -> Option<
    Simple,
> {
    if params.len() > 0 && (op == BinaryOp::And || op == BinaryOp::Or) {
        match (
            clauses_in(nodes, lhs, params[0], op, nodes.len()),
            clauses_in(nodes, rhs, params[0], op, nodes.len()),
        ) {
            (Some(a), Some(b)) if (a + b).len() >= 2 => Some(
                Simple::CompoundPredicate { clauses: a + b, combiner: op },
            ),
            _ => None,
        }
    } else {
        None
    }
}

/// A field with a literal, or with another field.
pub open spec fn predicate(nodes: Seq<Node>, op: BinaryOp, lhs: NodeId, rhs: NodeId, params: Seq<Seq<char>>) -> Option<
    Simple,
> {
    if params.len() > 0 && simple_op(op) {
        match (param_field(nodes, lhs, params[0]), literal_of(nodes, rhs), param_field(nodes, rhs, params[0])) {
            (Some(field1), None, Some(field2)) => Some(Simple::TwoFieldPredicate { field1, op, field2 }),
            _ => match simple_clause(nodes, op, lhs, rhs, params[0]) {
                Some(c) => Some(Simple::FieldPredicate { field: c.field, op: c.op, literal: c.literal }),
                None => None,
            },
        }
    } else {
        None
    }
}

/// The simple body that a binary operator makes.
pub open spec fn simple_binary(nodes: Seq<Node>, op: BinaryOp, lhs: NodeId, rhs: NodeId, params: Seq<Seq<char>>) -> Option<
    Simple,
> {
    if comparison(nodes, op, lhs, rhs, params) is Some {
        comparison(nodes, op, lhs, rhs, params)
    } else if accumulation(nodes, op, lhs, rhs, params) is Some {
        accumulation(nodes, op, lhs, rhs, params)
    } else if compound(nodes, op, lhs, rhs, params) is Some {
        compound(nodes, op, lhs, rhs, params)
    } else {
        predicate(nodes, op, lhs, rhs, params)
    }
}

/// The simple body that a body is, if it is one.
pub open spec fn simple_body(nodes: Seq<Node>, params: Seq<Seq<char>>, body: NodeId) -> Option<Simple> {
    match node_at(nodes, body) {
        Some(Node::Path { .. }) => if params.len() == 0 {
            None
        } else {
            match param_field(nodes, body, params[0]) {
                Some(field) => Some(Simple::FieldAccess { field }),
                None => None,
            }
        },
        Some(Node::Binary { op, lhs, rhs, .. }) => if op == BinaryOp::Concat && params.len() > 0 && template_in(
            nodes,
            body,
            params[0],
        ) is Some {
            Some(Simple::ConcatTemplate { pieces: template_in(nodes, body, params[0])->0 })
        } else {
            simple_binary(nodes, op, lhs, rhs, params)
        },
        _ => None,
    }
}

pub open spec fn seen(r: Option<SimpleLambda>) -> Option<Simple> {
    match r {
        Some(s) => Some(s@),
        None => None,
    }
}

pub open spec fn seen_text(r: Option<String>) -> Option<Seq<char>> {
    match r {
        Some(s) => Some(s@),
        None => None,
    }
}

pub open spec fn seen_value(r: Option<Value>) -> Option<Val> {
    match r {
        Some(v) => Some(v@),
        None => None,
    }
}

fn is_relational(op: BinaryOp) -> (r: bool)
    ensures
        r == relational_op(op),
{
    op == BinaryOp::Gt || op == BinaryOp::Lt || op == BinaryOp::Ge || op == BinaryOp::Le || op == BinaryOp::Eq || op
        == BinaryOp::Ne
}

fn is_arithmetic(op: BinaryOp) -> (r: bool)
    ensures
        r == arithmetic_op(op),
{
    op == BinaryOp::Add || op == BinaryOp::Sub || op == BinaryOp::Mul || op == BinaryOp::Div || op == BinaryOp::Mod
}

fn flip_relational(op: BinaryOp) -> (r: BinaryOp)
    ensures
        r == flipped(op),
{
    match op {
        BinaryOp::Gt => BinaryOp::Lt,
        BinaryOp::Lt => BinaryOp::Gt,
        BinaryOp::Ge => BinaryOp::Le,
        BinaryOp::Le => BinaryOp::Ge,
        other => other,
    }
}

fn is_mirrorable_literal(op: BinaryOp, literal: &Value) -> (r: bool)
    ensures
        r == mirrorable(op, literal@),
{
    if op == BinaryOp::Eq || op == BinaryOp::Ne {
        return true;
    }
    match literal {
        Value::Number(_) => true,
        Value::String(_) => true,
        _ => false,
    }
}

fn is_param_ref(node: NodeId, arena: &AstArena, param: &str) -> (r: bool)
    ensures
        r == is_param(arena.all(), node, param@),
{
    match arena.try_get(node) {
        Some(Expr::Variable { name, .. }) => is_text(chars_of(name.as_str()).as_slice(), param),
        _ => false,
    }
}

fn get_plain_field(node: NodeId, arena: &AstArena) -> (r: Option<String>)
    ensures
        seen_text(r) == plain_field(arena.all(), node),
{
    match arena.try_get(node) {
        Some(Expr::Name { value, keep_array, stages, group, focus, index, .. }) => if !*keep_array && stages.len() == 0
            && group.is_none() && focus.is_none() && index.is_none() {
            Some(value.clone())
        } else {
            None
        },
        _ => None,
    }
}

fn extract_param_field(node: NodeId, arena: &AstArena, param: &str) -> (r: Option<String>)
    ensures
        seen_text(r) == param_field(arena.all(), node, param@),
{
    match arena.try_get(node) {
        Some(Expr::Path { steps, keep_singleton_array, .. }) => {
            if *keep_singleton_array || steps.len() != 2 || !is_param_ref(steps[0], arena, param) {
                return None;
            }
            get_plain_field(steps[1], arena)
        },
        _ => None,
    }
}

fn extract_literal(node: NodeId, arena: &AstArena) -> (r: Option<Value>)
    ensures
        seen_value(r) == literal_of(arena.all(), node),
{
    match arena.try_get(node) {
        Some(Expr::NumberLit { value, .. }) => Some(Value::Number(*value)),
        Some(Expr::StringLit { value, .. }) => Some(Value::String(value.clone())),
        Some(Expr::ValueLit { value, .. }) => {
            let w = chars_of(value.as_str());
            if is_text(w.as_slice(), "true") {
                Some(Value::Bool(true))
            } else if is_text(w.as_slice(), "false") {
                Some(Value::Bool(false))
            } else if is_text(w.as_slice(), "null") {
                Some(Value::Null)
            } else {
                None
            }
        },
        _ => None,
    }
}

fn get_clause(op: BinaryOp, lhs: NodeId, rhs: NodeId, arena: &AstArena, param: &str) -> (r: Option<PredicateClause>)
    ensures
        simple_clause(arena.all(), op, lhs, rhs, param@) == (match r {
            Some(c) => Some(c@),
            None => None,
        }),
{
    if !is_relational(op) && !is_arithmetic(op) {
        return None;
    }
    if let Some(field) = extract_param_field(lhs, arena, param) {
        if let Some(literal) = extract_literal(rhs, arena) {
            return Some(PredicateClause { field, op, literal });
        }
    }
    if is_relational(op) {
        if let Some(literal) = extract_literal(lhs, arena) {
            if is_mirrorable_literal(op, &literal) {
                if let Some(field) = extract_param_field(rhs, arena, param) {
                    return Some(PredicateClause { field, op: flip_relational(op), literal });
                }
            }
        }
    }
    None
}

fn collect_predicate_clauses(
    arena: &AstArena,
    node: NodeId,
    param: &str,
    combiner: BinaryOp,
    room: usize,
) -> (r: Option<Vec<PredicateClause>>)
    ensures
        clauses_in(arena.all(), node, param@, combiner, room as nat) == (match r {
            Some(c) => Some(clauses_of(c@)),
            None => None,
        }),
    decreases room,
{
    match arena.try_get(node) {
        Some(Expr::Binary { op, lhs, rhs, .. }) => {
            if *op == combiner {
                if room == 0 {
                    return None;
                }
                let a = collect_predicate_clauses(arena, *lhs, param, combiner, room - 1);
                let b = collect_predicate_clauses(arena, *rhs, param, combiner, room - 1);
                match (a, b) {
                    (Some(x), Some(y)) => {
                        let mut all = x;
                        let mut more = y;
                        let ghost first = all@;
                        let ghost second = more@;
                        all.append(&mut more);
                        assert(clauses_of(all@) =~= clauses_of(first) + clauses_of(second));
                        Some(all)
                    },
                    _ => None,
                }
            } else {
                match get_clause(*op, *lhs, *rhs, arena, param) {
                    Some(c) => {
                        let mut one: Vec<PredicateClause> = Vec::new();
                        let ghost x = c@;
                        one.push(c);
                        assert(clauses_of(one@) =~= seq![x]);
                        Some(one)
                    },
                    None => None,
                }
            }
        },
        _ => None,
    }
}

fn collect_concat_nodes(arena: &AstArena, node: NodeId, room: usize) -> (r: Option<Vec<NodeId>>)
    ensures
        operands(arena.all(), node, room as nat) == (match r {
            Some(s) => Some(s@),
            None => None,
        }),
    decreases room,
{
    match arena.try_get(node) {
        Some(Expr::Binary { op: BinaryOp::Concat, lhs, rhs, .. }) => {
            if room == 0 {
                return None;
            }
            match collect_concat_nodes(arena, *lhs, room - 1) {
                Some(s) => {
                    let mut all = s;
                    all.push(*rhs);
                    Some(all)
                },
                None => None,
            }
        },
        _ => {
            let mut one: Vec<NodeId> = Vec::new();
            one.push(node);
            assert(one@ =~= seq![node]);
            Some(one)
        },
    }
}

fn get_number_literal(node: NodeId, arena: &AstArena) -> (r: Option<Number>)
    ensures
        r == number_literal(arena.all(), node),
{
    match arena.try_get(node) {
        Some(Expr::NumberLit { value, .. }) => Some(*value),
        _ => None,
    }
}

pub open spec fn seen_piece(r: Option<TemplatePiece>) -> Option<Piece> {
    match r {
        Some(p) => Some(p@),
        None => None,
    }
}

fn classify_call(name: &[char], a: &Vec<NodeId>, arena: &AstArena, param: &str) -> (r: Option<TemplatePiece>)
    ensures
        seen_piece(r) == call_piece(arena.all(), name@, a@, param@),
{
    if a.len() == 0 {
        return None;
    }
    let field = match extract_param_field(a[0], arena, param) {
        Some(f) => f,
        None => {
            return None;
        },
    };
    if is_text(name, "string") && a.len() == 1 {
        return Some(TemplatePiece::StringifyField(field));
    }
    if is_text(name, "lowercase") && a.len() == 1 {
        return Some(TemplatePiece::LowercaseField(field));
    }
    if is_text(name, "uppercase") && a.len() == 1 {
        return Some(TemplatePiece::UppercaseField(field));
    }
    if is_text(name, "substring") && a.len() >= 2 && a.len() <= 3 {
        let start: i64 = match get_number_literal(a[1], arena) {
            Some(n) => n.to_i64(),
            None => {
                return None;
            },
        };
        if a.len() == 2 {
            return Some(TemplatePiece::SubstringField { field, start, length: None });
        }
        return match get_number_literal(a[2], arena) {
            Some(l) => if !l.lt(&Number::from_usize(0)) && !l.is_nan() {
                Some(TemplatePiece::SubstringField { field, start, length: Some(l.to_usize()) })
            } else {
                None
            },
            None => None,
        };
    }
    None
}

fn classify_template_operand(node: NodeId, arena: &AstArena, param: &str) -> (r: Option<TemplatePiece>)
    ensures
        seen_piece(r) == piece_of(arena.all(), node, param@),
{
    match arena.try_get(node) {
        Some(Expr::StringLit { value, .. }) => Some(TemplatePiece::Literal(value.clone())),
        Some(Expr::Path { .. }) => match extract_param_field(node, arena, param) {
            Some(f) => Some(TemplatePiece::Field(f)),
            None => None,
        },
        Some(Expr::Function { procedure, arguments, .. }) => match arena.try_get(*procedure) {
            Some(Expr::Variable { name, .. }) => classify_call(
                chars_of(name.as_str()).as_slice(),
                arguments,
                arena,
                param,
            ),
            _ => None,
        },
        _ => None,
    }
}

proof fn lemma_no_pieces(nodes: Seq<Node>, ids: Seq<NodeId>, param: Seq<char>, i: int)
    requires
        0 <= i <= ids.len(),
        pieces_in(nodes, ids.take(i), param) is None,
    ensures
        pieces_in(nodes, ids, param) is None,
    decreases ids.len() - i,
{
    if i == ids.len() {
        assert(ids.take(i) =~= ids);
    } else {
        assert(ids.take(i + 1).drop_last() =~= ids.take(i));
        lemma_no_pieces(nodes, ids, param, i + 1);
    }
}

fn analyze_concat_template(body: NodeId, arena: &AstArena, param: &str) -> (r: Option<Vec<TemplatePiece>>)
    ensures
        template_in(arena.all(), body, param@) == (match r {
            Some(p) => Some(pieces_of(p@)),
            None => None,
        }),
{
    assert(arena.all().len() == arena.nodes@.len());
    let ids = match collect_concat_nodes(arena, body, arena.len()) {
        Some(s) => s,
        None => {
            return None;
        },
    };
    if ids.len() < 2 {
        return None;
    }
    let mut r: Vec<TemplatePiece> = Vec::new();
    let mut i: usize = 0;
    assert(ids@.take(0) =~= Seq::empty());
    assert(pieces_of(r@) =~= Seq::empty());
    while i < ids.len()
        invariant
            i <= ids.len(),
            ids@.len() >= 2,
            operands(arena.all(), body, arena.all().len()) == Some(ids@),
            pieces_in(arena.all(), ids@.take(i as int), param@) == Some(pieces_of(r@)),
        decreases ids.len() - i,
    {
        assert(ids@.take(i + 1).drop_last() =~= ids@.take(i as int));
        match classify_template_operand(ids[i], arena, param) {
            Some(p) => {
                let ghost before = r@;
                r.push(p);
                assert(pieces_of(r@) =~= pieces_of(before).push(p@));
            },
            None => {
                proof {
                    lemma_no_pieces(arena.all(), ids@, param@, i + 1);
                }
                return None;
            },
        }
        i = i + 1;
    }
    assert(ids@.take(i as int) =~= ids@);
    Some(r)
}

fn same_text(a: &String, b: &String) -> (r: bool)
    ensures
        r == (a@ == b@),
{
    is_text(chars_of(a.as_str()).as_slice(), b.as_str())
}

fn analyze_comparison(params: &Vec<String>, op: BinaryOp, lhs: NodeId, rhs: NodeId, arena: &AstArena) -> (r: Option<
    SimpleLambda,
>)
    ensures
        seen(r) == comparison(arena.all(), op, lhs, rhs, texts(params@)),
{
    if params.len() != 2 || !is_relational(op) {
        return None;
    }
    assert(texts(params@)[0] == params@[0]@);
    assert(texts(params@)[1] == params@[1]@);
    match (
        extract_param_field(lhs, arena, params[0].as_str()),
        extract_param_field(rhs, arena, params[1].as_str()),
    ) {
        (Some(a), Some(b)) => if same_text(&a, &b) {
            Some(SimpleLambda::SortComparator { field: a, op })
        } else {
            None
        },
        _ => None,
    }
}

fn analyze_accumulation(params: &Vec<String>, op: BinaryOp, lhs: NodeId, rhs: NodeId, arena: &AstArena) -> (r: Option<
    SimpleLambda,
>)
    ensures
        seen(r) == accumulation(arena.all(), op, lhs, rhs, texts(params@)),
{
    if params.len() < 2 || !is_arithmetic(op) {
        return None;
    }
    assert(texts(params@)[0] == params@[0]@);
    assert(texts(params@)[1] == params@[1]@);
    if !is_param_ref(lhs, arena, params[0].as_str()) {
        return None;
    }
    if let Some(field) = extract_param_field(rhs, arena, params[1].as_str()) {
        return Some(SimpleLambda::ReduceAccum { field, op });
    }
    match arena.try_get(rhs) {
        Some(Expr::Binary { op: inner_op, lhs: l, rhs: r, .. }) => {
            if !is_arithmetic(*inner_op) {
                return None;
            }
            match (
                extract_param_field(*l, arena, params[1].as_str()),
                extract_param_field(*r, arena, params[1].as_str()),
            ) {
                (Some(field1), Some(field2)) => Some(
                    SimpleLambda::ReduceCompoundAccum { field1, field2, outer_op: op, inner_op: *inner_op },
                ),
                _ => None,
            }
        },
        _ => None,
    }
}

fn analyze_compound(params: &Vec<String>, op: BinaryOp, lhs: NodeId, rhs: NodeId, arena: &AstArena) -> (r: Option<
    SimpleLambda,
>)
    ensures
        seen(r) == compound(arena.all(), op, lhs, rhs, texts(params@)),
{
    if params.len() == 0 || !(op == BinaryOp::And || op == BinaryOp::Or) {
        return None;
    }
    assert(texts(params@)[0] == params@[0]@);
    assert(arena.all().len() == arena.nodes@.len());
    let param = params[0].as_str();
    match (
        collect_predicate_clauses(arena, lhs, param, op, arena.len()),
        collect_predicate_clauses(arena, rhs, param, op, arena.len()),
    ) {
        (Some(x), Some(y)) => {
            let mut all = x;
            let mut more = y;
            let ghost first = all@;
            let ghost second = more@;
            all.append(&mut more);
            assert(clauses_of(all@) =~= clauses_of(first) + clauses_of(second));
            if all.len() >= 2 {
                Some(SimpleLambda::CompoundPredicate { clauses: all, combiner: op })
            } else {
                None
            }
        },
        _ => None,
    }
}

fn analyze_predicate(params: &Vec<String>, op: BinaryOp, lhs: NodeId, rhs: NodeId, arena: &AstArena) -> (r: Option<
    SimpleLambda,
>)
    ensures
        seen(r) == predicate(arena.all(), op, lhs, rhs, texts(params@)),
{
    if params.len() == 0 || !(is_relational(op) || is_arithmetic(op)) {
        return None;
    }
    assert(texts(params@)[0] == params@[0]@);
    let param = params[0].as_str();
    if let Some(field1) = extract_param_field(lhs, arena, param) {
        if extract_literal(rhs, arena).is_none() {
            if let Some(field2) = extract_param_field(rhs, arena, param) {
                return Some(SimpleLambda::TwoFieldPredicate { field1, op, field2 });
            }
        }
    }
    match get_clause(op, lhs, rhs, arena, param) {
        Some(c) => Some(SimpleLambda::FieldPredicate { field: c.field, op: c.op, literal: c.literal }),
        None => None,
    }
}

/// The simple body that a binary operator makes.
fn analyze_binary(params: &Vec<String>, op: BinaryOp, lhs: NodeId, rhs: NodeId, arena: &AstArena) -> (r: Option<
    SimpleLambda,
>)
    ensures
        seen(r) == simple_binary(arena.all(), op, lhs, rhs, texts(params@)),
{
    if let Some(s) = analyze_comparison(params, op, lhs, rhs, arena) {
        return Some(s);
    }
    if let Some(s) = analyze_accumulation(params, op, lhs, rhs, arena) {
        return Some(s);
    }
    if let Some(s) = analyze_compound(params, op, lhs, rhs, arena) {
        return Some(s);
    }
    analyze_predicate(params, op, lhs, rhs, arena)
}

/// The simple body that the body of a function is, if it is one.
pub fn analyze_lambda(params: &Vec<String>, body: NodeId, arena: &AstArena) -> (r: Option<SimpleLambda>)
    ensures
        seen(r) == simple_body(arena.all(), texts(params@), body),
{
    if params.len() > 0 {
        assert(texts(params@)[0] == params@[0]@);
    }
    match arena.try_get(body) {
        Some(Expr::Path { .. }) => {
            if params.len() == 0 {
                return None;
            }
            match extract_param_field(body, arena, params[0].as_str()) {
                Some(field) => Some(SimpleLambda::FieldAccess { field }),
                None => None,
            }
        },
        Some(Expr::Binary { op, lhs, rhs, .. }) => {
            if *op == BinaryOp::Concat && params.len() > 0 {
                if let Some(pieces) = analyze_concat_template(body, arena, params[0].as_str()) {
                    return Some(SimpleLambda::ConcatTemplate { pieces });
                }
            }
            analyze_binary(params, *op, *lhs, *rhs, arena)
        },
        _ => None,
    }
}

// ── Working simple bodies out ────────────────────────────────────────────────

/// What a relational or arithmetic operator gives. Nothing is equal or unequal
/// to what is not there.
pub open spec fn simple_result(a: Val, op: BinaryOp, b: Val) -> Result<Val, Seq<char>> {
    match op {
        BinaryOp::Gt => compared(a, b, CompareOp::Gt),
        BinaryOp::Lt => compared(a, b, CompareOp::Lt),
        BinaryOp::Ge => compared(a, b, CompareOp::Ge),
        BinaryOp::Le => compared(a, b, CompareOp::Le),
        BinaryOp::Eq => Ok(Val::Bool(!(a is Undefined) && !(b is Undefined) && equal_vals(a, b))),
        BinaryOp::Ne => Ok(Val::Bool(!(a is Undefined) && !(b is Undefined) && !equal_vals(a, b))),
        _ => arithmetic(op, a, b),
    }
}

/// Apply a relational or arithmetic operator.
pub fn eval_binary_simple(lhs: &Value, op: BinaryOp, rhs: &Value) -> (r: JsonataResult)
    requires
        simple_op(op),
    ensures
        out(r) == simple_result(lhs@, op, rhs@),
{
    match op {
        BinaryOp::Gt => lhs.compare(rhs, CompareOp::Gt),
        BinaryOp::Lt => lhs.compare(rhs, CompareOp::Lt),
        BinaryOp::Ge => lhs.compare(rhs, CompareOp::Ge),
        BinaryOp::Le => lhs.compare(rhs, CompareOp::Le),
        BinaryOp::Eq => Ok(Value::Bool(!lhs.is_undefined() && !rhs.is_undefined() && lhs.deep_equal(rhs))),
        BinaryOp::Ne => Ok(Value::Bool(!lhs.is_undefined() && !rhs.is_undefined() && !lhs.deep_equal(rhs))),
        _ => apply_arithmetic(op, lhs, rhs),
    }
}

/// Which of two items comes first by a field: -1, 0 or 1.
pub fn compare_by_field_checked(a: &Value, b: &Value, field: &str) -> (r: Result<i8, JsonataError>)
    ensures
        out_order(r) == ordered(field_of(a@, field@), field_of(b@, field@)),
        r is Ok ==> -1 <= r->Ok_0 <= 1,
{
    let x = get_field(a, field);
    let y = get_field(b, field);
    x.compare_order(&y)
}

/// The text of a value in a concatenation; what is not there has none.
pub open spec fn text_in(v: Val) -> Result<Seq<char>, Seq<char>> {
    if v is Undefined {
        Ok(Seq::empty())
    } else {
        stringified(v, false)
    }
}

/// The text of what a function gave; anything but text has none.
pub open spec fn text_from(r: Result<Val, Seq<char>>) -> Result<Seq<char>, Seq<char>> {
    match r {
        Ok(Val::String(s)) => Ok(s),
        Ok(_) => Ok(Seq::empty()),
        Err(e) => Err(e),
    }
}

/// The arguments of `$substring` in a piece.
pub open spec fn substring_args(v: Val, start: i64, length: Option<usize>) -> Seq<Val> {
    match length {
        Some(l) => seq![v, Val::Number(Number::of_int(start as int)), Val::Number(Number::of_int(l as int))],
        None => seq![v, Val::Number(Number::of_int(start as int))],
    }
}

/// The text of a piece.
pub open spec fn piece_text(item: Val, p: Piece) -> Result<Seq<char>, Seq<char>> {
    match p {
        Piece::Literal(s) => Ok(s),
        Piece::Field(f) => text_in(field_of(item, f)),
        Piece::StringifyField(f) => text_in(field_of(item, f)),
        Piece::SubstringField { field, start, length } => text_from(
            substring(substring_args(field_of(item, field), start, length)),
        ),
        Piece::LowercaseField(f) => text_from(lower(seq![field_of(item, f)], Val::Undefined)),
        Piece::UppercaseField(f) => text_from(upper(seq![field_of(item, f)], Val::Undefined)),
    }
}

/// The texts of pieces put together.
pub open spec fn template_text(item: Val, pieces: Seq<Piece>) -> Result<Seq<char>, Seq<char>>
    decreases pieces.len(),
{
    if pieces.len() == 0 {
        Ok(Seq::empty())
    } else {
        match template_text(item, pieces.drop_last()) {
            Err(e) => Err(e),
            Ok(s) => match piece_text(item, pieces.last()) {
                Err(e) => Err(e),
                Ok(t) => Ok(s + t),
            },
        }
    }
}

proof fn lemma_template_stops(item: Val, pieces: Seq<Piece>, i: int)
    requires
        0 <= i <= pieces.len(),
        template_text(item, pieces.take(i)) is Err,
    ensures
        template_text(item, pieces) == template_text(item, pieces.take(i)),
    decreases pieces.len() - i,
{
    if i == pieces.len() {
        assert(pieces.take(i) =~= pieces);
    } else {
        assert(pieces.take(i + 1).drop_last() =~= pieces.take(i));
        lemma_template_stops(item, pieces, i + 1);
    }
}

fn push_value(buf: &mut Vec<char>, v: &Value) -> (r: Result<(), JsonataError>)
    ensures
        appended(old(buf)@, final(buf)@, r, text_in(v@)),
{
    let ghost before = buf@;
    if v.is_undefined() {
        assert(before + Seq::<char>::empty() =~= before);
        return Ok(());
    }
    v.stringify_into(buf, false)
}

fn push_piece(buf: &mut Vec<char>, v: JsonataResult) -> (r: Result<(), JsonataError>)
    ensures
        appended(old(buf)@, final(buf)@, r, text_from(out(v))),
{
    let ghost before = buf@;
    match v {
        Ok(Value::String(s)) => {
            push_text(buf, s.as_str());
            Ok(())
        },
        Ok(_) => {
            assert(before + Seq::<char>::empty() =~= before);
            Ok(())
        },
        Err(e) => Err(e),
    }
}

fn push_template_piece(buf: &mut Vec<char>, item: &Value, piece: &TemplatePiece) -> (r: Result<(), JsonataError>)
    ensures
        appended(old(buf)@, final(buf)@, r, piece_text(item@, piece@)),
{
    let none = Value::Undefined;
    match piece {
        TemplatePiece::Literal(s) => {
            push_text(buf, s.as_str());
            Ok(())
        },
        TemplatePiece::Field(f) => push_value(buf, &get_field(item, f.as_str())),
        TemplatePiece::StringifyField(f) => push_value(buf, &get_field(item, f.as_str())),
        TemplatePiece::SubstringField { field, start, length } => {
            let mut args: Vec<Value> = Vec::new();
            let v = get_field(item, field.as_str());
            args.push(v);
            args.push(Value::Number(Number::from_i64(*start)));
            if let Some(l) = length {
                args.push(Value::Number(Number::from_usize(*l)));
            }
            assert(vals(args@) =~= substring_args(v@, *start, *length));
            push_piece(buf, fn_substring(args.as_slice(), &none))
        },
        TemplatePiece::LowercaseField(f) => {
            let mut args: Vec<Value> = Vec::new();
            let v = get_field(item, f.as_str());
            args.push(v);
            assert(vals(args@) =~= seq![v@]);
            push_piece(buf, fn_lowercase(args.as_slice(), &none))
        },
        TemplatePiece::UppercaseField(f) => {
            let mut args: Vec<Value> = Vec::new();
            let v = get_field(item, f.as_str());
            args.push(v);
            assert(vals(args@) =~= seq![v@]);
            push_piece(buf, fn_uppercase(args.as_slice(), &none))
        },
    }
}

/// The texts of pieces put together, for an item.
pub fn eval_concat_template(item: &Value, pieces: &Vec<TemplatePiece>) -> (r: JsonataResult)
    ensures
        out(r) == (match template_text(item@, pieces_of(pieces@)) {
            Ok(s) => Ok::<Val, Seq<char>>(Val::String(s)),
            Err(e) => Err(e),
        }),
{
    let ghost all = pieces_of(pieces@);
    let mut buf: Vec<char> = Vec::new();
    let mut i: usize = 0;
    assert(all.take(0) =~= Seq::empty());
    assert(buf@ =~= Seq::<char>::empty());
    while i < pieces.len()
        invariant
            i <= pieces.len(),
            all == pieces_of(pieces@),
            template_text(item@, all.take(i as int)) == Ok::<Seq<char>, Seq<char>>(buf@),
        decreases pieces.len() - i,
    {
        assert(all.take(i + 1).drop_last() =~= all.take(i as int));
        assert(all[i as int] == pieces@[i as int]@);
        match push_template_piece(&mut buf, item, &pieces[i]) {
            Ok(_) => {},
            Err(e) => {
                proof {
                    lemma_template_stops(item@, all, i + 1);
                }
                return Err(e);
            },
        }
        i = i + 1;
    }
    assert(all.take(i as int) =~= all);
    Ok(Value::String(text_of(buf.as_slice())))
}

// ── Calls on fields of an item ───────────────────────────────────────────────

/// An argument of a call on an item.
#[derive(Debug)]
pub enum CallArg {
    /// A field of the item.
    Field(String),
    /// The same for every item.
    Const(Value),
    /// Anything else.
    Expr(NodeId),
}

/// An argument of a call on an item, as contracts speak of it.
pub enum ArgKind {
    Field(Seq<char>),
    Const(Val),
    Expr(NodeId),
}

impl View for CallArg {
    type V = ArgKind;

    open spec fn view(&self) -> ArgKind {
        match *self {
            CallArg::Field(f) => ArgKind::Field(f@),
            CallArg::Const(v) => ArgKind::Const(v@),
            CallArg::Expr(n) => ArgKind::Expr(n),
        }
    }
}

pub open spec fn kinds_of(s: Seq<CallArg>) -> Seq<ArgKind> {
    s.map_values(|c: CallArg| c@)
}

/// What of a standard function can be worked out before any item is seen.
pub(crate) enum PreparedState {
    FormatNumber { pos: SubPicture, neg: SubPicture, fc: FmtChars },
    Round { precision: i32 },
    Contains { needle: String },
    FormatBase { radix: u32 },
}

/// What of a standard function can be worked out before any item is seen, as
/// contracts speak of it.
pub enum Readied {
    FormatNumber { picture: Seq<char> },
    Round { precision: i32 },
    Contains { needle: Seq<char> },
    FormatBase { radix: u32 },
}

impl PreparedState {
    /// Whether the state is that of a function.
    pub(crate) closed spec fn stands_for(self, r: Readied) -> bool {
        match (self, r) {
            (PreparedState::FormatNumber { pos, neg, fc }, Readied::FormatNumber { picture }) => fc@ == default_marks()
                && prepared(picture, fc@) == Ok::<(Picture, Picture), Seq<char>>((pos@, neg@)) && workable(pos@)
                && workable(neg@),
            (PreparedState::Round { precision: a }, Readied::Round { precision: b }) => a == b,
            (PreparedState::Contains { needle: a }, Readied::Contains { needle: b }) => a@ == b,
            (PreparedState::FormatBase { radix: a }, Readied::FormatBase { radix: b }) => a == b && 2 <= a <= 36,
            _ => false,
        }
    }
}

/// What of a standard function can be worked out from its other arguments.
pub open spec fn readied(name: Seq<char>, args: Seq<ArgKind>) -> Option<Readied> {
    if name == "formatNumber"@ {
        if args.len() == 2 {
            match args[1] {
                ArgKind::Const(Val::String(picture)) => if prepared(picture, default_marks()) is Ok {
                    Some(Readied::FormatNumber { picture })
                } else {
                    None
                },
                _ => None,
            }
        } else {
            None
        }
    } else if name == "round"@ {
        if args.len() < 2 {
            Some(Readied::Round { precision: 0 })
        } else {
            match args[1] {
                ArgKind::Const(Val::Number(n)) => Some(
                    Readied::Round { precision: n.saturated(i32::MIN as int, i32::MAX as int) as i32 },
                ),
                _ => None,
            }
        }
    } else if name == "contains"@ {
        if args.len() < 2 {
            None
        } else {
            match args[1] {
                ArgKind::Const(Val::String(needle)) => Some(Readied::Contains { needle }),
                _ => None,
            }
        }
    } else if name == "formatBase"@ {
        if args.len() < 2 {
            None
        } else {
            match args[1] {
                ArgKind::Const(Val::Number(n)) => {
                    let radix = n.saturated(0, u32::MAX as int) as u32;
                    if 2 <= radix <= 36 {
                        Some(Readied::FormatBase { radix })
                    } else {
                        None
                    }
                },
                _ => None,
            }
        }
    } else {
        None
    }
}

/// What a function that was readied gives for a value, if it can tell.
pub open spec fn quick(r: Readied, v: Val) -> Option<Result<Val, Seq<char>>> {
    match (r, v) {
        (Readied::FormatNumber { picture }, Val::Number(n)) => if n.finite() {
            let (pos, neg) = prepared(picture, default_marks())->Ok_0;
            Some(Ok(Val::String(formatted_by(n, default_marks(), pos, neg))))
        } else {
            None
        },
        (Readied::Round { precision }, Val::Number(n)) => Some(Ok(Val::Number(rounded_at(n, precision as int)))),
        (Readied::Contains { needle }, Val::String(s)) => Some(Ok(Val::Bool(find_seq(s, needle, 0) is Some))),
        (Readied::FormatBase { radix }, Val::Number(_)) => Some(
            format_base(seq![v, Val::Number(Number::of_int(radix as int))]),
        ),
        _ => None,
    }
}

fn try_prepare(name: &[char], args: &Vec<CallArg>) -> (r: Option<PreparedState>)
    ensures
        match (r, readied(name@, kinds_of(args@))) {
            (Some(p), Some(q)) => p.stands_for(q),
            (None, None) => true,
            _ => false,
        },
{
    let ghost kinds = kinds_of(args@);
    if args.len() >= 2 {
        assert(kinds[1] == args@[1]@);
    }
    if is_text(name, "formatNumber") {
        if args.len() != 2 {
            return None;
        }
        return match &args[1] {
            CallArg::Const(Value::String(picture)) => {
                let fc = FmtChars::standard();
                match prepare_sub_pictures(chars_of(picture.as_str()).as_slice(), &fc) {
                    Ok((pos, neg)) => Some(PreparedState::FormatNumber { pos, neg, fc }),
                    Err(_) => None,
                }
            },
            _ => None,
        };
    }
    if is_text(name, "round") {
        if args.len() < 2 {
            return Some(PreparedState::Round { precision: 0 });
        }
        return match &args[1] {
            CallArg::Const(Value::Number(n)) => Some(PreparedState::Round { precision: n.to_i32() }),
            _ => None,
        };
    }
    if is_text(name, "contains") {
        if args.len() < 2 {
            return None;
        }
        return match &args[1] {
            CallArg::Const(Value::String(s)) => Some(PreparedState::Contains { needle: s.clone() }),
            _ => None,
        };
    }
    if is_text(name, "formatBase") {
        if args.len() < 2 {
            return None;
        }
        return match &args[1] {
            CallArg::Const(Value::Number(n)) => {
                let radix: u32 = n.to_u32();
                if radix >= 2 && radix <= 36 {
                    Some(PreparedState::FormatBase { radix })
                } else {
                    None
                }
            },
            _ => None,
        };
    }
    None
}

fn exec_prepared(p: &PreparedState, v: &Value, Ghost(ready): Ghost<Readied>) -> (r: Option<JsonataResult>)
    requires
        p.stands_for(ready),
    ensures
        quick(ready, v@) == (match r {
            Some(x) => Some(out(x)),
            None => None,
        }),
{
    match (p, v) {
        (PreparedState::FormatNumber { pos, neg, fc }, Value::Number(n)) => if n.is_finite() {
            let t = format_number_value(*n, pos, neg, fc);
            Some(Ok(Value::String(text_of(t.as_slice()))))
        } else {
            None
        },
        (PreparedState::Round { precision }, Value::Number(n)) => Some(
            Ok(Value::Number(bankers_round(*n, *precision))),
        ),
        (PreparedState::Contains { needle }, Value::String(s)) => Some(
            Ok(
                Value::Bool(
                    find_text(chars_of(s.as_str()).as_slice(), chars_of(needle.as_str()).as_slice(), 0).is_some(),
                ),
            ),
        ),
        (PreparedState::FormatBase { radix }, Value::Number(n)) => {
            let mut args: Vec<Value> = Vec::new();
            args.push(Value::Number(*n));
            args.push(Value::Number(Number::from_u64(*radix as u64)));
            assert(vals(args@) =~= seq![v@, Val::Number(Number::of_int(*radix as int))]);
            let none = Value::Undefined;
            Some(fn_format_base(args.as_slice(), &none))
        },
        _ => None,
    }
}

/// What a readied function gives is what the function gives.
pub proof fn law_quick_is_the_function(name: Seq<char>, v: Val, constant: Val, focus: Val)
    requires
        readied(name, seq![ArgKind::Field(Seq::empty()), ArgKind::Const(constant)]) is Some,
        quick(readied(name, seq![ArgKind::Field(Seq::empty()), ArgKind::Const(constant)])->0, v) is Some,
    ensures
        ({
            let r = quick(readied(name, seq![ArgKind::Field(Seq::empty()), ArgKind::Const(constant)])->0, v)->0;
            &&& name == "formatNumber"@ ==> r == format_number(seq![v, constant])
            &&& name == "round"@ ==> r == round_result(seq![v, constant])
            &&& name == "contains"@ ==> r == contains(seq![v, constant], focus)
        }),
{
    let args = seq![ArgKind::Field(Seq::empty()), ArgKind::Const(constant)];
    let a = seq![v, constant];
    assert(args[1] == ArgKind::Const(constant));
    assert(a[0] == v && a[1] == constant && a.len() == 2);
    reveal_strlit("formatNumber");
    reveal_strlit("round");
    reveal_strlit("contains");
    reveal_strlit("formatBase");
    assert("formatNumber"@.len() == 12 && "round"@.len() == 5 && "contains"@.len() == 8 && "formatBase"@.len() == 10);
    if name == "formatNumber"@ {
        assert(quick(readied(name, args)->0, v)->0 == format_number(a));
    } else if name == "round"@ {
        assert(quick(readied(name, args)->0, v)->0 == round_result(a));
    } else if name == "contains"@ {
        assert(quick(readied(name, args)->0, v)->0 == contains(a, focus));
    }
}

/// A call on fields of items, with its function found.
pub struct MappedCall {
    func: FunctionValue,
    arg_template: Vec<CallArg>,
    prepared: Option<PreparedState>,
    ready: Ghost<Option<Readied>>,
}

/// A call on fields of items, as contracts speak of it.
pub struct Mapped {
    pub func: Fun,
    pub args: Seq<ArgKind>,
    pub ready: Option<Readied>,
}

impl View for MappedCall {
    type V = Mapped;

    closed spec fn view(&self) -> Mapped {
        Mapped { func: self.func@, args: kinds_of(self.arg_template@), ready: self.ready@ }
    }
}

impl MappedCall {
    #[verifier::type_invariant]
    spec fn agrees(self) -> bool {
        match (self.prepared, self.ready@) {
            (Some(p), Some(q)) => p.stands_for(q),
            (None, None) => true,
            _ => false,
        }
    }
}

/// The one expression of a block, or the node itself.
pub open spec fn unwrapped(nodes: Seq<Node>, id: NodeId) -> NodeId {
    match node_at(nodes, id) {
        Some(Node::Block { expressions, .. }) => if expressions.len() == 1 {
            expressions[0]
        } else {
            id
        },
        _ => id,
    }
}

/// The name of the function that a node calls, and the arguments.
pub open spec fn named_call(nodes: Seq<Node>, id: NodeId) -> Option<(Seq<char>, Seq<NodeId>)> {
    match node_at(nodes, unwrapped(nodes, id)) {
        Some(Node::Function { procedure, arguments, .. }) => match node_at(nodes, procedure) {
            Some(Node::Variable { name, .. }) => Some((name, arguments)),
            _ => None,
        },
        _ => None,
    }
}

/// What an argument is to an item: a field of the parameter, or of the item
/// itself where there is no parameter.
pub open spec fn arg_kind(nodes: Seq<Node>, id: NodeId, param: Option<Seq<char>>) -> ArgKind {
    match literal_of(nodes, id) {
        Some(v) => ArgKind::Const(v),
        None => match param {
            Some(p) => match param_field(nodes, id, p) {
                Some(f) => ArgKind::Field(f),
                None => ArgKind::Expr(id),
            },
            None => match plain_field(nodes, id) {
                Some(f) => ArgKind::Field(f),
                None => ArgKind::Expr(id),
            },
        },
    }
}

pub open spec fn arg_kinds(nodes: Seq<Node>, ids: Seq<NodeId>, param: Option<Seq<char>>) -> Seq<ArgKind> {
    ids.map_values(|id: NodeId| arg_kind(nodes, id, param))
}

pub open spec fn has_field(args: Seq<ArgKind>) -> bool {
    exists|i: int| 0 <= i < args.len() && (#[trigger] args[i]) is Field
}

pub open spec fn has_expr(args: Seq<ArgKind>) -> bool {
    exists|i: int| 0 <= i < args.len() && (#[trigger] args[i]) is Expr
}

/// A call on fields of items, with the function that its name was found to be.
/// A function that wants more arguments than it gets is left to the evaluator.
pub open spec fn mapped_call(nodes: Seq<Node>, id: NodeId, param: Option<Seq<char>>, found: Val) -> Option<Mapped> {
    match (named_call(nodes, id), found) {
        (Some((name, ids)), Val::Function(func)) => {
            let args = arg_kinds(nodes, ids, param);
            let short = match func {
                Fun::Lambda { params, .. } => params.len() > ids.len(),
                _ => false,
            };
            if short || !has_field(args) || has_expr(args) {
                None
            } else {
                Some(
                    Mapped {
                        func,
                        args,
                        ready: if func == Fun::Builtin(Code::Standard(name)) {
                            readied(name, args)
                        } else {
                            None
                        },
                    },
                )
            }
        },
        _ => None,
    }
}

fn unwrap_block(node: NodeId, arena: &AstArena) -> (r: NodeId)
    ensures
        r == unwrapped(arena.all(), node),
{
    match arena.try_get(node) {
        Some(Expr::Block { expressions, .. }) => if expressions.len() == 1 {
            expressions[0]
        } else {
            node
        },
        _ => node,
    }
}

/// The name of the function that a node calls, and the arguments.
pub fn callee(node: NodeId, arena: &AstArena) -> (r: Option<(String, Vec<NodeId>)>)
    ensures
        named_call(arena.all(), node) == (match r {
            Some((n, a)) => Some((n@, a@)),
            None => None,
        }),
{
    match arena.try_get(unwrap_block(node, arena)) {
        Some(Expr::Function { procedure, arguments, .. }) => match arena.try_get(*procedure) {
            Some(Expr::Variable { name, .. }) => Some((name.clone(), copy_ids(arguments))),
            _ => None,
        },
        _ => None,
    }
}

fn classify_call_arg(node: NodeId, arena: &AstArena, param: Option<&str>) -> (r: CallArg)
    ensures
        r@ == arg_kind(
            arena.all(),
            node,
            match param {
                Some(p) => Some(p@),
                None => None,
            },
        ),
{
    if let Some(v) = extract_literal(node, arena) {
        return CallArg::Const(v);
    }
    let field = match param {
        Some(p) => extract_param_field(node, arena, p),
        None => get_plain_field(node, arena),
    };
    match field {
        Some(f) => CallArg::Field(f),
        None => CallArg::Expr(node),
    }
}

/// A call on fields of items, with the function that its name was found to be.
pub fn analyze_mapped_call(node: NodeId, arena: &AstArena, param: Option<&str>, found: &Value) -> (r: Option<MappedCall>)
    ensures
        mapped_call(
            arena.all(),
            node,
            match param {
                Some(p) => Some(p@),
                None => None,
            },
            found@,
        ) == (match r {
            Some(m) => Some(m@),
            None => None,
        }),
{
    let ghost want = match param {
        Some(p) => Some(p@),
        None => None,
    };
    let (name, ids) = match callee(node, arena) {
        Some(p) => p,
        None => {
            return None;
        },
    };
    let func = match found {
        Value::Function(f) => f,
        _ => {
            return None;
        },
    };
    if let FunctionValue::Lambda(l) = func {
        assert(texts(l.params@).len() == l.params@.len());
        if l.params.len() > ids.len() {
            return None;
        }
    }
    let ghost kinds = arg_kinds(arena.all(), ids@, want);
    let mut template: Vec<CallArg> = Vec::new();
    let mut any_field: bool = false;
    let mut i: usize = 0;
    while i < ids.len()
        invariant
            i <= ids.len(),
            template@.len() == i,
            kinds == arg_kinds(arena.all(), ids@, want),
            want == (match param {
                Some(p) => Some(p@),
                None => None,
            }),
            named_call(arena.all(), node) == Some((name@, ids@)),
            found@ == Val::Function(func@),
            forall|q: int| 0 <= q < i ==> (#[trigger] template@[q])@ == kinds[q],
            any_field <==> exists|q: int| 0 <= q < i && (#[trigger] kinds[q]) is Field,
            forall|q: int| 0 <= q < i ==> !((#[trigger] kinds[q]) is Expr),
        decreases ids.len() - i,
    {
        let a = classify_call_arg(ids[i], arena, param);
        assert(a@ == kinds[i as int]);
        match &a {
            CallArg::Field(_) => {
                any_field = true;
            },
            CallArg::Const(_) => {},
            CallArg::Expr(_) => {
                assert(has_expr(kinds));
                return None;
            },
        }
        template.push(a);
        i = i + 1;
    }
    assert(kinds_of(template@) =~= kinds);
    if !any_field {
        return None;
    }
    let mut prepared: Option<PreparedState> = None;
    let ghost mut ready: Option<Readied> = None;
    if let FunctionValue::Builtin(Callable::Standard(n)) = func {
        if same_text(n, &name) {
            prepared = try_prepare(chars_of(name.as_str()).as_slice(), &template);
            proof {
                ready = readied(name@, kinds);
            }
        }
    }
    Some(MappedCall { func: func.clone(), arg_template: template, prepared, ready: Ghost(ready) })
}

/// What a call on an item gives without asking, if it can tell.
pub open spec fn mapped_quick(m: Mapped, item: Val) -> Option<Result<Val, Seq<char>>> {
    match m.ready {
        Some(r) => if m.args.len() > 0 {
            match m.args[0] {
                ArgKind::Field(f) => quick(r, field_of(item, f)),
                _ => None,
            }
        } else {
            None
        },
        None => None,
    }
}

/// The value of an argument for an item.
pub open spec fn arg_value(a: ArgKind, item: Val) -> Val {
    match a {
        ArgKind::Field(f) => field_of(item, f),
        ArgKind::Const(v) => v,
        ArgKind::Expr(_) => Val::Undefined,
    }
}

/// The arguments of a call on an item.
pub open spec fn mapped_args(m: Mapped, item: Val) -> Seq<Val> {
    m.args.map_values(|a: ArgKind| arg_value(a, item))
}

impl MappedCall {
    /// What the call gives for an item without asking, if it can tell.
    pub fn try_quick(&self, item: &Value) -> (r: Option<JsonataResult>)
        ensures
            mapped_quick(self@, item@) == (match r {
                Some(x) => Some(out(x)),
                None => None,
            }),
    {
        proof {
            use_type_invariant(self);
        }
        match &self.prepared {
            Some(p) => {
                if self.arg_template.len() == 0 {
                    return None;
                }
                assert(self@.args[0] == self.arg_template@[0]@);
                match &self.arg_template[0] {
                    CallArg::Field(f) => {
                        let v = get_field(item, f.as_str());
                        exec_prepared(p, &v, Ghost(self.ready@->0))
                    },
                    _ => None,
                }
            },
            None => None,
        }
    }

    /// The function that is called.
    pub fn function(&self) -> (r: &FunctionValue)
        ensures
            r@ == self@.func,
    {
        &self.func
    }

    /// The arguments of the call for an item.
    pub fn arguments(&self, item: &Value) -> (r: Vec<Value>)
        ensures
            vals(r@) == mapped_args(self@, item@),
    {
        let ghost want = mapped_args(self@, item@);
        let mut r: Vec<Value> = Vec::new();
        let mut i: usize = 0;
        while i < self.arg_template.len()
            invariant
                i <= self.arg_template.len(),
                want == mapped_args(self@, item@),
                vals(r@) =~= want.take(i as int),
            decreases self.arg_template.len() - i,
        {
            assert(self@.args[i as int] == self.arg_template@[i as int]@);
            let ghost before = r@;
            let x = match &self.arg_template[i] {
                CallArg::Field(f) => get_field(item, f.as_str()),
                CallArg::Const(v) => v.clone(),
                CallArg::Expr(_) => Value::Undefined,
            };
            r.push(x);
            assert(vals(r@) =~= vals(before).push(x@));
            i = i + 1;
        }
        assert(want.take(i as int) =~= want);
        r
    }
}

/// Make a call on an item, asking only where it has to.
pub fn exec_mapped_call<C: Fn(&FunctionValue, &Vec<Value>, &Value, Option<usize>) -> JsonataResult>(
    mc: &MappedCall,
    item: &Value,
    scope: usize,
    call: &C,
) -> (r: JsonataResult)
    requires
        forall|f: &FunctionValue, a: &Vec<Value>, v: &Value, s: Option<usize>| #[trigger]
            call.requires((f, a, v, s)),
    ensures
        match mapped_quick(mc@, item@) {
            Some(x) => out(r) == x,
            None => may_return(*call, mc@.func, mapped_args(mc@, item@), item@, Some(scope), out(r)),
        },
{
    match mc.try_quick(item) {
        Some(r) => r,
        None => {
            let args = mc.arguments(item);
            ask_call(call, mc.function(), &args, item, Some(scope))
        },
    }
}

/// Whether the operators of a body are ones that `eval_binary_simple` applies.
pub open spec fn well_made(s: Simple) -> bool {
    match s {
        Simple::FieldPredicate { op, .. } => simple_op(op),
        Simple::TwoFieldPredicate { op, .. } => simple_op(op),
        Simple::SortComparator { op, .. } => simple_op(op),
        Simple::ReduceAccum { op, .. } => simple_op(op),
        Simple::ReduceCompoundAccum { outer_op, inner_op, .. } => simple_op(outer_op) && simple_op(inner_op),
        Simple::CompoundPredicate { clauses, .. } => all_simple(clauses),
        _ => true,
    }
}

pub open spec fn all_simple(clauses: Seq<Clause>) -> bool {
    forall|i: int| 0 <= i < clauses.len() ==> simple_op((#[trigger] clauses[i]).op)
}

proof fn lemma_clauses_simple(nodes: Seq<Node>, id: NodeId, param: Seq<char>, combiner: BinaryOp, room: nat)
    ensures
        match clauses_in(nodes, id, param, combiner, room) {
            Some(c) => all_simple(c),
            None => true,
        },
    decreases room,
{
    match node_at(nodes, id) {
        Some(Node::Binary { op, lhs, rhs, .. }) => {
            if op == combiner && room > 0 {
                lemma_clauses_simple(nodes, lhs, param, combiner, (room - 1) as nat);
                lemma_clauses_simple(nodes, rhs, param, combiner, (room - 1) as nat);
            }
        },
        _ => {},
    }
}

/// The operators of every simple body are ones that can be applied.
pub proof fn lemma_well_made(nodes: Seq<Node>, params: Seq<Seq<char>>, body: NodeId)
    ensures
        match simple_body(nodes, params, body) {
            Some(s) => well_made(s),
            None => true,
        },
{
    match node_at(nodes, body) {
        Some(Node::Binary { op, lhs, rhs, .. }) => {
            if params.len() > 0 {
                lemma_clauses_simple(nodes, lhs, params[0], op, nodes.len());
                lemma_clauses_simple(nodes, rhs, params[0], op, nodes.len());
            }
        },
        _ => {},
    }
}

/// A literal on the left of a field is as good as one on the right, with the
/// operator turned round: so a body may be taken in either order.
pub proof fn law_literal_on_either_side(literal: Val, op: BinaryOp, field: Val)
    requires
        relational_op(op),
        mirrorable(op, literal),
        literal is Null || literal is Bool || literal is Number || literal is String,
    ensures
        simple_result(literal, op, field) == simple_result(field, flipped(op), literal),
{
    assert(equal_vals(literal, field) == equal_vals(field, literal));
}

} // verus!
