//! Expressions from source text to a syntax tree.
//!
//! A parser by binding powers: `nud` reads what stands at the start of an
//! expression, `led` what follows an operand.
pub mod ast;
pub mod precedence;
pub mod prepared;
pub mod process;
pub mod token_places;
pub mod tree;

use vstd::prelude::*;

use ast::{
    allocated, no_node, node_at, AstArena, Declared, BinaryOp, Expr, Group, GroupExpr, Node, NodeId, Signature, SortTerm, Step,
    UnaryOp,
};
use crate::error::{
    bare_fault, error_about, error_at, error_naming, error_on, fault, fault_at, fault_on, Fault, JsonataError,
};
use crate::lexer::{next_token, plain, Lexer, Tok, Token, TokenType};
use crate::text::{chars_of, is_text, part, push_all, push_text, text_of};

verus! {

/// Deepest nesting of expressions.
pub const MAX_PARSE_DEPTH: usize = 500;

/// Where a parser stands: the source and the position in it, the token in
/// hand, whether the next slash is an operator, the nodes made so far, how deep
/// the nesting is, and what signatures are read as.
#[verifier::ext_equal]
pub struct State {
    pub src: Seq<char>,
    pub at: int,
    pub token: Tok,
    pub infix: bool,
    pub nodes: Seq<Node>,
    pub depth: int,
    pub reads: Readings,
}

/// What the inside of a signature is read as: the number that the evaluator
/// knows the parameters by, or what is wrong with it.
pub type Reading = Result<usize, Fault>;

/// What texts are read as inside a signature.
pub type Readings = spec_fn(Seq<char>) -> Reading;

/// Whether the evaluator may read a text so.
pub open spec fn may_read<G: Fn(&str) -> Result<usize, JsonataError>>(read: G, inner: Seq<char>, r: Reading) -> bool {
    exists|s: &str, a: Result<usize, JsonataError>| #[trigger]
        read.ensures((s,), a) && s@ == inner && r == (match a {
            Ok(params) => Ok::<usize, Fault>(params),
            Err(e) => Err(fault(e)),
        })
}

/// Whether the evaluator can be asked to read any text, and reads one text only
/// in one way.
pub open spec fn readable<G: Fn(&str) -> Result<usize, JsonataError>>(read: G) -> bool {
    &&& forall|s: &str| #[trigger] read.requires((s,))
    &&& forall|inner: Seq<char>, a: Reading, b: Reading| #[trigger]
        may_read(read, inner, a) && #[trigger] may_read(read, inner, b) ==> a == b
}

/// What the evaluator reads a text as.
pub open spec fn reading<G: Fn(&str) -> Result<usize, JsonataError>>(read: G, inner: Seq<char>) -> Reading {
    choose|r: Reading| may_read(read, inner, r)
}

/// What the evaluator reads texts as.
pub open spec fn readings<G: Fn(&str) -> Result<usize, JsonataError>>(read: G) -> Readings {
    |inner: Seq<char>| reading(read, inner)
}

/// An answer of the evaluator is what it reads the text as.
proof fn lemma_reading<G: Fn(&str) -> Result<usize, JsonataError>>(read: G, inner: Seq<char>, a: Result<usize, JsonataError>)
    requires
        readable(read),
        exists|s: &str| #[trigger] read.ensures((s,), a) && s@ == inner,
    ensures
        readings(read)(inner) == (match a {
            Ok(params) => Ok::<usize, Fault>(params),
            Err(e) => Err(fault(e)),
        }),
{
    let s = choose|s: &str| #[trigger] read.ensures((s,), a) && s@ == inner;
    let r = match a {
        Ok(params) => Ok::<usize, Fault>(params),
        Err(e) => Err(fault(e)),
    };
    assert(read.ensures((s,), a));
    assert(may_read(read, inner, r));
    assert(may_read(read, inner, reading(read, inner)));
}

/// What parsing something gives: where the parser stands then, and a result.
pub type Parsed<T> = Result<(State, T), Fault>;

/// How much is left to read.
pub open spec fn left_over(st: State) -> nat {
    ((if st.at <= st.src.len() {
        2 * (st.src.len() - st.at)
    } else {
        0
    }) + (if st.token.typ == TokenType::EOF {
        0int
    } else {
        1int
    })) as nat
}

/// Whether less is left to read in `b` than in `a`.
pub open spec fn eats(a: State, b: State) -> bool {
    left_over(b) < left_over(a)
}

/// What a parser that no longer moves would give; none does.
pub open spec fn stuck<T>() -> Parsed<T> {
    Err(bare_fault(""@))
}

// ── Tokens ───────────────────────────────────────────────────────────────────

#[verifier::opaque]
pub open spec fn next(st: State, infix: bool) -> Result<State, Fault> {
    match next_token(st.src, st.at, infix) {
        Ok((t, j)) => Ok(State { token: t, at: j, infix: false, ..st }),
        Err(e) => Err(e),
    }
}

/// The state with the next token in hand.
pub open spec fn advanced(st: State) -> Result<State, Fault> {
    next(st, st.infix)
}

/// The state with the next token in hand, in prefix position.
pub open spec fn advanced_prefix(st: State) -> Result<State, Fault> {
    next(st, false)
}

/// The state with the next token in hand, after an operand.
pub open spec fn advanced_infix(st: State) -> Result<State, Fault> {
    next(st, true)
}

/// The state after a token that must be of a kind.
pub open spec fn taken(st: State, expected: TokenType, infix: bool) -> Result<State, Fault> {
    if st.token.typ != expected {
        Err(fault_on("S0202"@, st.token.pos, st.token.value))
    } else {
        next(st, infix)
    }
}

// ── Nodes ────────────────────────────────────────────────────────────────────

/// The state with one more node.
pub open spec fn grown(st: State, n: Node) -> Parsed<NodeId> {
    match allocated(st.nodes, n) {
        Ok((nodes, id)) => Ok((State { nodes, ..st }, id)),
        Err(c) => Err(bare_fault(c)),
    }
}

pub open spec fn name_node(value: Seq<char>, pos: usize) -> Node {
    Node::Name { value, pos, keep_array: false, stages: Seq::empty(), group: None, focus: None, index: None }
}

pub open spec fn variable_node(name: Seq<char>, pos: usize) -> Node {
    Node::Variable { name, group: None, keep_array: false, focus: None, index: None, pos }
}

pub open spec fn binary_node(op: BinaryOp, lhs: NodeId, rhs: NodeId, pos: usize) -> Node {
    Node::Binary { op, lhs, rhs, group: None, keep_array: false, focus: None, index: None, pos }
}

pub open spec fn unary_node(
    op: UnaryOp,
    operand: NodeId,
    expressions: Seq<NodeId>,
    lhs: Seq<NodeId>,
    pos: usize,
) -> Node {
    Node::Unary { op, operand, expressions, lhs, group: None, keep_array: false, pos }
}

/// The node with the mark that `[]` leaves, where it has a place for one.
pub open spec fn with_keep_array(n: Node) -> Node {
    match n {
        Node::Name { value, pos, stages, group, focus, index, .. } => Node::Name {
            value,
            pos,
            keep_array: true,
            stages,
            group,
            focus,
            index,
        },
        Node::Binary { op, lhs, rhs, group, focus, index, pos, .. } => Node::Binary {
            op,
            lhs,
            rhs,
            group,
            keep_array: true,
            focus,
            index,
            pos,
        },
        Node::Variable { name, group, focus, index, pos, .. } => Node::Variable {
            name,
            group,
            keep_array: true,
            focus,
            index,
            pos,
        },
        Node::Function { procedure, arguments, pos, thunk, group, .. } => Node::Function {
            procedure,
            arguments,
            pos,
            thunk,
            keep_array: true,
            group,
        },
        Node::Sort { expr, terms, index, focus, pos, .. } => Node::Sort {
            expr,
            terms,
            keep_array: true,
            index,
            focus,
            pos,
        },
        Node::Block { expressions, focus, index, pos, .. } => Node::Block {
            expressions,
            focus,
            index,
            keep_array: true,
            pos,
        },
        Node::Unary { op, operand, expressions, lhs, group, pos, .. } => Node::Unary {
            op,
            operand,
            expressions,
            lhs,
            group,
            keep_array: true,
            pos,
        },
        Node::Wildcard { pos, .. } => Node::Wildcard { keep_array: true, pos },
        Node::Descendant { pos, .. } => Node::Descendant { keep_array: true, pos },
        other => other,
    }
}

fn keep_array_on(e: Expr) -> (r: Expr)
    ensures
        r@ == with_keep_array(e@),
{
    match e {
        Expr::Name { value, pos, keep_array: _, stages, group, focus, index } => Expr::Name {
            value,
            pos,
            keep_array: true,
            stages,
            group,
            focus,
            index,
        },
        Expr::Binary { op, lhs, rhs, group, keep_array: _, focus, index, pos } => Expr::Binary {
            op,
            lhs,
            rhs,
            group,
            keep_array: true,
            focus,
            index,
            pos,
        },
        Expr::Variable { name, group, keep_array: _, focus, index, pos } => Expr::Variable {
            name,
            group,
            keep_array: true,
            focus,
            index,
            pos,
        },
        Expr::Function { procedure, arguments, pos, thunk, keep_array: _, group } => Expr::Function {
            procedure,
            arguments,
            pos,
            thunk,
            keep_array: true,
            group,
        },
        Expr::Sort { expr, terms, keep_array: _, index, focus, pos } => Expr::Sort {
            expr,
            terms,
            keep_array: true,
            index,
            focus,
            pos,
        },
        Expr::Block { expressions, focus, index, keep_array: _, pos } => Expr::Block {
            expressions,
            focus,
            index,
            keep_array: true,
            pos,
        },
        Expr::Unary { op, operand, expressions, lhs, group, keep_array: _, pos } => Expr::Unary {
            op,
            operand,
            expressions,
            lhs,
            group,
            keep_array: true,
            pos,
        },
        Expr::Wildcard { keep_array: _, pos } => Expr::Wildcard { keep_array: true, pos },
        Expr::Descendant { keep_array: _, pos } => Expr::Descendant { keep_array: true, pos },
        other => other,
    }
}

/// Whether a node carries a group-by.
pub open spec fn grouped(n: Option<Node>) -> bool {
    match n {
        Some(Node::Name { group, .. }) => group is Some,
        Some(Node::Binary { group, .. }) => group is Some,
        Some(Node::Variable { group, .. }) => group is Some,
        Some(Node::Unary { group, .. }) => group is Some,
        Some(Node::Function { group, .. }) => group is Some,
        Some(Node::Grouped { .. }) => true,
        _ => false,
    }
}

/// The node with a group-by, where it has a place for one.
pub open spec fn with_group(n: Node, g: Group) -> Option<Node> {
    match n {
        Node::Name { value, pos, keep_array, stages, focus, index, .. } => Some(
            Node::Name { value, pos, keep_array, stages, group: Some(g), focus, index },
        ),
        Node::Binary { op, lhs, rhs, keep_array, focus, index, pos, .. } => Some(
            Node::Binary { op, lhs, rhs, group: Some(g), keep_array, focus, index, pos },
        ),
        Node::Variable { name, keep_array, focus, index, pos, .. } => Some(
            Node::Variable { name, group: Some(g), keep_array, focus, index, pos },
        ),
        Node::Unary { op, operand, expressions, lhs, keep_array, pos, .. } => Some(
            Node::Unary { op, operand, expressions, lhs, group: Some(g), keep_array, pos },
        ),
        Node::Function { procedure, arguments, pos, thunk, keep_array, .. } => Some(
            Node::Function { procedure, arguments, pos, thunk, keep_array, group: Some(g) },
        ),
        _ => None,
    }
}

/// A group-by put on a node, or handed back where the node has no place for one.
enum Placed {
    On(Expr),
    Back(GroupExpr),
}

fn group_on(e: Expr, g: GroupExpr) -> (r: Placed)
    ensures
        match r {
            Placed::On(x) => with_group(e@, g@) == Some(x@),
            Placed::Back(h) => with_group(e@, g@) is None && h == g,
        },
{
    match e {
        Expr::Name { value, pos, keep_array, stages, group: _, focus, index } => Placed::On(
            Expr::Name { value, pos, keep_array, stages, group: Some(g), focus, index },
        ),
        Expr::Binary { op, lhs, rhs, group: _, keep_array, focus, index, pos } => Placed::On(
            Expr::Binary { op, lhs, rhs, group: Some(g), keep_array, focus, index, pos },
        ),
        Expr::Variable { name, group: _, keep_array, focus, index, pos } => Placed::On(
            Expr::Variable { name, group: Some(g), keep_array, focus, index, pos },
        ),
        Expr::Unary { op, operand, expressions, lhs, group: _, keep_array, pos } => Placed::On(
            Expr::Unary { op, operand, expressions, lhs, group: Some(g), keep_array, pos },
        ),
        Expr::Function { procedure, arguments, pos, thunk, keep_array, group: _ } => Placed::On(
            Expr::Function { procedure, arguments, pos, thunk, keep_array, group: Some(g) },
        ),
        _ => Placed::Back(g),
    }
}

/// The node with a focus variable, where it has a place for one.
pub open spec fn with_focus(n: Node, v: Seq<char>) -> Node {
    match n {
        Node::Name { value, pos, keep_array, stages, group, index, .. } => Node::Name {
            value,
            pos,
            keep_array,
            stages,
            group,
            focus: Some(v),
            index,
        },
        Node::Binary { op, lhs, rhs, group, keep_array, index, pos, .. } => Node::Binary {
            op,
            lhs,
            rhs,
            group,
            keep_array,
            focus: Some(v),
            index,
            pos,
        },
        Node::Variable { name, group, keep_array, index, pos, .. } => Node::Variable {
            name,
            group,
            keep_array,
            focus: Some(v),
            index,
            pos,
        },
        Node::Sort { expr, terms, keep_array, index, pos, .. } => Node::Sort {
            expr,
            terms,
            keep_array,
            index,
            focus: Some(v),
            pos,
        },
        Node::Block { expressions, index, keep_array, pos, .. } => Node::Block {
            expressions,
            focus: Some(v),
            index,
            keep_array,
            pos,
        },
        other => other,
    }
}

fn focus_on(e: Expr, v: String) -> (r: Expr)
    ensures
        r@ == with_focus(e@, v@),
{
    match e {
        Expr::Name { value, pos, keep_array, stages, group, focus: _, index } => Expr::Name {
            value,
            pos,
            keep_array,
            stages,
            group,
            focus: Some(v),
            index,
        },
        Expr::Binary { op, lhs, rhs, group, keep_array, focus: _, index, pos } => Expr::Binary {
            op,
            lhs,
            rhs,
            group,
            keep_array,
            focus: Some(v),
            index,
            pos,
        },
        Expr::Variable { name, group, keep_array, focus: _, index, pos } => Expr::Variable {
            name,
            group,
            keep_array,
            focus: Some(v),
            index,
            pos,
        },
        Expr::Sort { expr, terms, keep_array, index, focus: _, pos } => Expr::Sort {
            expr,
            terms,
            keep_array,
            index,
            focus: Some(v),
            pos,
        },
        Expr::Block { expressions, focus: _, index, keep_array, pos } => Expr::Block {
            expressions,
            focus: Some(v),
            index,
            keep_array,
            pos,
        },
        other => other,
    }
}

/// The node with an index variable, where it has a place for one.
pub open spec fn with_index(n: Node, v: Seq<char>) -> Node {
    match n {
        Node::Name { value, pos, keep_array, stages, group, focus, .. } => Node::Name {
            value,
            pos,
            keep_array,
            stages,
            group,
            focus,
            index: Some(v),
        },
        Node::Binary { op, lhs, rhs, group, keep_array, focus, pos, .. } => Node::Binary {
            op,
            lhs,
            rhs,
            group,
            keep_array,
            focus,
            index: Some(v),
            pos,
        },
        Node::Variable { name, group, keep_array, focus, pos, .. } => Node::Variable {
            name,
            group,
            keep_array,
            focus,
            index: Some(v),
            pos,
        },
        Node::Sort { expr, terms, keep_array, focus, pos, .. } => Node::Sort {
            expr,
            terms,
            keep_array,
            index: Some(v),
            focus,
            pos,
        },
        Node::Block { expressions, focus, keep_array, pos, .. } => Node::Block {
            expressions,
            focus,
            index: Some(v),
            keep_array,
            pos,
        },
        other => other,
    }
}

fn index_on(e: Expr, v: String) -> (r: Expr)
    ensures
        r@ == with_index(e@, v@),
{
    match e {
        Expr::Name { value, pos, keep_array, stages, group, focus, index: _ } => Expr::Name {
            value,
            pos,
            keep_array,
            stages,
            group,
            focus,
            index: Some(v),
        },
        Expr::Binary { op, lhs, rhs, group, keep_array, focus, index: _, pos } => Expr::Binary {
            op,
            lhs,
            rhs,
            group,
            keep_array,
            focus,
            index: Some(v),
            pos,
        },
        Expr::Variable { name, group, keep_array, focus, index: _, pos } => Expr::Variable {
            name,
            group,
            keep_array,
            focus,
            index: Some(v),
            pos,
        },
        Expr::Sort { expr, terms, keep_array, index: _, focus, pos } => Expr::Sort {
            expr,
            terms,
            keep_array,
            index: Some(v),
            focus,
            pos,
        },
        Expr::Block { expressions, focus, index: _, keep_array, pos } => Expr::Block {
            expressions,
            focus,
            index: Some(v),
            keep_array,
            pos,
        },
        other => other,
    }
}

/// The nodes with one changed, where it is there.
pub open spec fn changed(nodes: Seq<Node>, id: NodeId, n: Node) -> Seq<Node> {
    if id.index < nodes.len() {
        nodes.update(id.index as int, n)
    } else {
        nodes
    }
}

/// A flat list of keys and values as pairs; a key without a value is left out.
pub open spec fn paired(flat: Seq<NodeId>) -> Seq<(NodeId, NodeId)> {
    Seq::new(flat.len() / 2, |i: int| (flat[2 * i], flat[2 * i + 1]))
}

fn pairs_to_group_pairs(flat: &Vec<NodeId>) -> (r: Vec<(NodeId, NodeId)>)
    ensures
        r@ == paired(flat@),
{
    let len: usize = flat.len();
    let n: usize = len / 2;
    let mut r: Vec<(NodeId, NodeId)> = Vec::new();
    let mut i: usize = 0;
    while i < n
        invariant
            i <= n,
            len == flat@.len(),
            n == len / 2,
            r@ =~= paired(flat@).take(i as int),
        decreases n - i,
    {
        r.push((flat[2 * i], flat[2 * i + 1]));
        i = i + 1;
    }
    assert(r@ =~= paired(flat@));
    r
}

/// How tightly a token binds what stands before it.
pub open spec fn power(t: TokenType) -> int {
    match t {
        TokenType::LParen => 80,
        TokenType::LBracket => 80,
        TokenType::Dot => 75,
        TokenType::At => 75,
        TokenType::Hash => 75,
        TokenType::LBrace => 70,
        TokenType::StarStar => 60,
        TokenType::Star => 60,
        TokenType::Slash => 60,
        TokenType::Percent => 60,
        TokenType::Plus => 50,
        TokenType::Minus => 50,
        TokenType::Amp => 50,
        TokenType::Chain => 45,
        TokenType::NE => 40,
        TokenType::LE => 40,
        TokenType::GE => 40,
        TokenType::Equals => 40,
        TokenType::LT => 40,
        TokenType::GT => 40,
        TokenType::In => 40,
        TokenType::Caret => 40,
        TokenType::And => 30,
        TokenType::Or => 25,
        TokenType::DotDot => 20,
        TokenType::Pipe => 20,
        TokenType::Question => 20,
        TokenType::Elvis => 20,
        TokenType::Coalesce => 20,
        TokenType::Assign => 10,
        _ => 0,
    }
}

/// How tightly a token binds what stands before it.
pub fn binding_power(t: TokenType) -> (r: i32)
    ensures
        r == power(t),
{
    match t {
        TokenType::LParen | TokenType::LBracket => 80,
        TokenType::Dot | TokenType::At | TokenType::Hash => 75,
        TokenType::LBrace => 70,
        TokenType::StarStar | TokenType::Star | TokenType::Slash | TokenType::Percent => 60,
        TokenType::Plus | TokenType::Minus | TokenType::Amp => 50,
        TokenType::Chain => 45,
        TokenType::NE
        | TokenType::LE
        | TokenType::GE
        | TokenType::Equals
        | TokenType::LT
        | TokenType::GT
        | TokenType::In
        | TokenType::Caret => 40,
        TokenType::And => 30,
        TokenType::Or => 25,
        TokenType::DotDot
        | TokenType::Pipe
        | TokenType::Question
        | TokenType::Elvis
        | TokenType::Coalesce => 20,
        TokenType::Assign => 10,
        _ => 0,
    }
}

// ── Grammar ──────────────────────────────────────────────────────────────────

/// An operand of one token.
pub open spec fn leaf(st: State, n: Node) -> Parsed<NodeId> {
    match advanced_infix(st) {
        Ok(s1) => grown(s1, n),
        Err(e) => Err(e),
    }
}

/// An expression whose operators bind more tightly than `rbp`.
pub open spec fn expression(st: State, rbp: int) -> Parsed<NodeId>
    decreases left_over(st), 2int,
{
    let s0 = State { depth: st.depth + 1, ..st };
    if s0.depth > MAX_PARSE_DEPTH {
        Err(fault_at("S0210"@, st.token.pos))
    } else {
        match nud(s0) {
            Err(e) => Err(e),
            Ok((s1, left)) => if !eats(st, s1) {
                stuck()
            } else {
                match infixes(s1, left, rbp) {
                    Err(e) => Err(e),
                    Ok((s2, id)) => Ok((State { depth: st.depth, ..s2 }, id)),
                }
            },
        }
    }
}

/// Operators that follow an operand and bind more tightly than `rbp`.
pub open spec fn infixes(st: State, left: NodeId, rbp: int) -> Parsed<NodeId>
    decreases left_over(st), 2int,
{
    if power(st.token.typ) > rbp {
        match led(st, left) {
            Err(e) => Err(e),
            Ok((s1, id)) => if !eats(st, s1) {
                stuck()
            } else {
                infixes(s1, id, rbp)
            },
        }
    } else {
        Ok((st, left))
    }
}

/// What a number literal becomes under a minus sign.
pub open spec fn negated_literal(raw: Seq<char>) -> Seq<char> {
    if raw.len() > 0 && raw[0] == '-' {
        raw.skip(1)
    } else {
        seq!['-'] + raw
    }
}

/// What stands at the start of an expression.
pub open spec fn nud(st: State) -> Parsed<NodeId>
    decreases left_over(st), 1int,
{
    let tok = st.token;
    match tok.typ {
        TokenType::Name => match advanced_infix(st) {
            Err(e) => Err(e),
            Ok(s1) => if (tok.value == "function"@ || tok.value == "λ"@) && s1.token.typ == TokenType::LParen {
                if eats(st, s1) {
                    lambda(s1, tok.pos)
                } else {
                    stuck()
                }
            } else {
                grown(s1, name_node(tok.value, tok.pos))
            },
        },
        TokenType::And => leaf(st, name_node(tok.value, tok.pos)),
        TokenType::Or => leaf(st, name_node(tok.value, tok.pos)),
        TokenType::In => leaf(st, name_node(tok.value, tok.pos)),
        TokenType::Variable => leaf(st, variable_node(tok.value, tok.pos)),
        TokenType::String => leaf(st, Node::StringLit { value: tok.value, pos: tok.pos }),
        TokenType::Number => leaf(st, Node::NumberLit { value: tok.num_val, raw: tok.value, pos: tok.pos }),
        TokenType::Value => leaf(st, Node::ValueLit { value: tok.value, pos: tok.pos }),
        TokenType::Regex => leaf(
            st,
            Node::Regex { pattern: tok.regex_pat, flags: tok.regex_flg, pos: tok.pos },
        ),
        TokenType::Star => leaf(st, Node::Wildcard { keep_array: false, pos: tok.pos }),
        TokenType::StarStar => leaf(st, Node::Descendant { keep_array: false, pos: tok.pos }),
        TokenType::Percent => leaf(st, Node::Parent { pos: tok.pos, slot: None }),
        TokenType::Question => leaf(st, Node::Placeholder { pos: tok.pos }),
        TokenType::Minus => negation(st),
        TokenType::LBracket => array(st),
        TokenType::LBrace => object(st),
        TokenType::LParen => block(st),
        TokenType::Pipe => transform(st, tok.pos),
        TokenType::Tilde => transform(st, tok.pos),
        TokenType::Chain => Err(fault_at("S0211"@, tok.pos)),
        TokenType::EOF => Err(fault_at("S0201"@, tok.pos)),
        _ => Err(fault_on("S0211"@, tok.pos, tok.value)),
    }
}

/// A minus sign and its operand; the sign of a number literal becomes part of it.
pub open spec fn negation(st: State) -> Parsed<NodeId>
    decreases left_over(st), 0int,
{
    match advanced_prefix(st) {
        Err(e) => Err(e),
        Ok(s1) => if !eats(st, s1) {
            stuck()
        } else {
            match expression(s1, 70) {
                Err(e) => Err(e),
                Ok((s2, rhs)) => match node_at(s2.nodes, rhs) {
                    Some(Node::NumberLit { value, raw, pos }) => Ok(
                        (
                            State {
                                nodes: changed(
                                    s2.nodes,
                                    rhs,
                                    Node::NumberLit { value: value.neg_spec(), raw: negated_literal(raw), pos },
                                ),
                                ..s2
                            },
                            rhs,
                        ),
                    ),
                    _ => grown(
                        s2,
                        unary_node(UnaryOp::Negate, rhs, Seq::empty(), Seq::empty(), st.token.pos),
                    ),
                },
            }
        },
    }
}

/// An array constructor.
pub open spec fn array(st: State) -> Parsed<NodeId>
    decreases left_over(st), 0int,
{
    match advanced_prefix(st) {
        Err(e) => Err(e),
        Ok(s1) => if !eats(st, s1) {
            stuck()
        } else {
            match array_items(s1, Seq::empty()) {
                Err(e) => Err(e),
                Ok((s2, ids)) => match advanced_infix(s2) {
                    Err(e) => Err(e),
                    Ok(s3) => grown(s3, unary_node(UnaryOp::ArrayCons, no_node(), ids, Seq::empty(), st.token.pos)),
                },
            }
        },
    }
}

/// The rest of the items of an array, up to its closing bracket.
pub open spec fn array_items(st: State, done: Seq<NodeId>) -> Parsed<Seq<NodeId>>
    decreases left_over(st), 3int,
{
    if st.token.typ == TokenType::RBracket {
        Ok((st, done))
    } else if st.token.typ == TokenType::EOF {
        Err(fault_at("S0202"@, st.token.pos))
    } else {
        match expression(st, 0) {
            Err(e) => Err(e),
            Ok((s1, id)) => if s1.token.typ == TokenType::Comma {
                match advanced_prefix(s1) {
                    Err(e) => Err(e),
                    Ok(s2) => if !eats(st, s2) {
                        stuck()
                    } else {
                        array_items(s2, done.push(id))
                    },
                }
            } else if s1.token.typ == TokenType::RBracket {
                Ok((s1, done.push(id)))
            } else if s1.token.typ == TokenType::RParen || s1.token.typ == TokenType::RBrace || s1.token.typ
                == TokenType::Colon {
                Err(fault_at("S0202"@, s1.token.pos))
            } else {
                Err(fault_at("S0204"@, s1.token.pos))
            },
        }
    }
}

/// An object constructor.
pub open spec fn object(st: State) -> Parsed<NodeId>
    decreases left_over(st), 0int,
{
    match advanced_prefix(st) {
        Err(e) => Err(e),
        Ok(s1) => if !eats(st, s1) {
            stuck()
        } else {
            match object_pairs(s1, Seq::empty()) {
                Err(e) => Err(e),
                Ok((s2, ids)) => grown(
                    s2,
                    unary_node(UnaryOp::ObjCons, no_node(), Seq::empty(), ids, st.token.pos),
                ),
            }
        },
    }
}

/// The rest of the keys and values of an object, and its closing brace.
pub open spec fn object_pairs(st: State, done: Seq<NodeId>) -> Parsed<Seq<NodeId>>
    decreases left_over(st), 3int,
{
    if st.token.typ == TokenType::RBrace {
        match advanced_infix(st) {
            Ok(s1) => Ok((s1, done)),
            Err(e) => Err(e),
        }
    } else if st.token.typ == TokenType::EOF {
        Err(fault_at("S0202"@, st.token.pos))
    } else {
        match expression(st, 0) {
            Err(e) => Err(e),
            Ok((s1, key)) => match taken(s1, TokenType::Colon, false) {
                Err(e) => Err(e),
                Ok(s2) => if !eats(st, s2) {
                    stuck()
                } else {
                    match expression(s2, 0) {
                        Err(e) => Err(e),
                        Ok((s3, value)) => match if s3.token.typ == TokenType::Comma {
                            advanced_prefix(s3)
                        } else {
                            Ok(s3)
                        } {
                            Err(e) => Err(e),
                            Ok(s4) => if !eats(st, s4) {
                                stuck()
                            } else {
                                object_pairs(s4, done.push(key).push(value))
                            },
                        },
                    }
                },
            },
        }
    }
}

/// A block: expressions in parentheses, separated by semicolons.
pub open spec fn block(st: State) -> Parsed<NodeId>
    decreases left_over(st), 0int,
{
    match advanced_prefix(st) {
        Err(e) => Err(e),
        Ok(s1) => if !eats(st, s1) {
            stuck()
        } else {
            match block_items(s1, Seq::empty()) {
                Err(e) => Err(e),
                Ok((s2, ids)) => if s2.token.typ == TokenType::EOF {
                    Err(fault_at("S0203"@, s2.token.pos))
                } else if s2.token.typ != TokenType::RParen {
                    Err(fault_on("S0202"@, s2.token.pos, s2.token.value))
                } else {
                    match advanced_infix(s2) {
                        Err(e) => Err(e),
                        Ok(s3) => grown(
                            s3,
                            Node::Block {
                                expressions: ids,
                                focus: None,
                                index: None,
                                keep_array: false,
                                pos: st.token.pos,
                            },
                        ),
                    }
                },
            }
        },
    }
}

/// The rest of the expressions of a block, up to what no semicolon follows.
pub open spec fn block_items(st: State, done: Seq<NodeId>) -> Parsed<Seq<NodeId>>
    decreases left_over(st), 3int,
{
    if st.token.typ == TokenType::RParen {
        Ok((st, done))
    } else if st.token.typ == TokenType::EOF {
        Err(fault_at("S0203"@, st.token.pos))
    } else {
        match expression(st, 0) {
            Err(e) => Err(e),
            Ok((s1, id)) => if s1.token.typ != TokenType::Semicolon {
                Ok((s1, done.push(id)))
            } else {
                match advanced_prefix(s1) {
                    Err(e) => Err(e),
                    Ok(s2) => if !eats(st, s2) {
                        stuck()
                    } else {
                        block_items(s2, done.push(id))
                    },
                }
            },
        }
    }
}

/// A transform: pattern, update and what to delete between bars.
pub open spec fn transform(st: State, pos: usize) -> Parsed<NodeId>
    decreases left_over(st), 0int,
{
    match advanced_prefix(st) {
        Err(e) => Err(e),
        Ok(s1) => if !eats(st, s1) {
            stuck()
        } else {
            match expression(s1, 20) {
                Err(e) => Err(e),
                Ok((s2, pattern)) => match taken(s2, TokenType::Pipe, false) {
                    Err(e) => Err(e),
                    Ok(s3) => if !eats(st, s3) {
                        stuck()
                    } else {
                        match expression(s3, 20) {
                            Err(e) => Err(e),
                            Ok((s4, update)) => if s4.token.typ == TokenType::Comma {
                                match advanced_prefix(s4) {
                                    Err(e) => Err(e),
                                    Ok(s5) => if !eats(st, s5) {
                                        stuck()
                                    } else {
                                        match expression(s5, 20) {
                                            Err(e) => Err(e),
                                            Ok((s6, delete)) => transform_end(
                                                s6,
                                                pattern,
                                                update,
                                                Some(delete),
                                                pos,
                                            ),
                                        }
                                    },
                                }
                            } else {
                                transform_end(s4, pattern, update, None, pos)
                            },
                        }
                    },
                },
            }
        },
    }
}

pub open spec fn transform_end(
    st: State,
    pattern: NodeId,
    update: NodeId,
    delete: Option<NodeId>,
    pos: usize,
) -> Parsed<NodeId> {
    match taken(st, TokenType::Pipe, true) {
        Err(e) => Err(e),
        Ok(s1) => grown(s1, Node::Transform { pattern, update, delete, pos }),
    }
}

/// The parameters of a function, up to the closing parenthesis.
pub open spec fn lambda_params(st: State, done: Seq<NodeId>) -> Parsed<Seq<NodeId>>
    decreases left_over(st),
{
    if st.token.typ == TokenType::RParen {
        Ok((st, done))
    } else if st.token.typ != TokenType::Variable {
        Err(fault_on("S0208"@, st.token.pos, st.token.value))
    } else {
        match grown(st, variable_node(st.token.value, st.token.pos)) {
            Err(e) => Err(e),
            Ok((s1, id)) => match advanced(s1) {
                Err(e) => Err(e),
                Ok(s2) => match if s2.token.typ == TokenType::Comma {
                    advanced_prefix(s2)
                } else {
                    Ok(s2)
                } {
                    Err(e) => Err(e),
                    Ok(s3) => if !eats(st, s3) {
                        stuck()
                    } else {
                        lambda_params(s3, done.push(id))
                    },
                },
            },
        }
    }
}

/// The rest of a signature, `depth` angle brackets deep: its text, with the
/// last bracket still in hand.
pub open spec fn signature_rest(st: State, depth: int, raw: Seq<char>) -> Parsed<Seq<char>>
    decreases left_over(st),
{
    if st.token.typ == TokenType::EOF {
        Err(fault_at("S0202"@, st.token.pos))
    } else {
        let d = if st.token.typ == TokenType::LT {
            depth + 1
        } else if st.token.typ == TokenType::GT {
            depth - 1
        } else {
            depth
        };
        let r = raw + st.token.value;
        if d > 0 {
            match advanced(st) {
                Err(e) => Err(e),
                Ok(s1) => if !eats(st, s1) {
                    stuck()
                } else {
                    signature_rest(s1, d, r)
                },
            }
        } else {
            Ok((st, r))
        }
    }
}

/// A signature without its angle brackets.
pub open spec fn inside(raw: Seq<char>) -> Seq<char> {
    if raw.len() >= 2 && raw[0] == '<' && raw.last() == '>' {
        raw.subrange(1, raw.len() - 1)
    } else {
        raw
    }
}

/// A signature in angle brackets. What is wrong inside it is so where it begins.
pub open spec fn signature(st: State) -> Parsed<Declared> {
    match advanced(st) {
        Err(e) => Err(e),
        Ok(s1) => match signature_rest(s1, 1, "<"@) {
            Err(e) => Err(e),
            Ok((s2, raw)) => match advanced(s2) {
                Err(e) => Err(e),
                Ok(s3) => match (s3.reads)(inside(raw)) {
                    Err(f) => Err(Fault { position: Some(st.token.pos), ..f }),
                    Ok(params) => Ok((s3, Declared { raw, params })),
                },
            },
        },
    }
}

/// An optional signature.
pub open spec fn optional_signature(st: State) -> Parsed<Option<Declared>> {
    if st.token.typ == TokenType::LT {
        match signature(st) {
            Err(e) => Err(e),
            Ok((s1, d)) => Ok((s1, Some(d))),
        }
    } else {
        Ok((st, None))
    }
}

/// Parameters and signature of a function, up to where its body starts.
pub open spec fn lambda_head(st: State) -> Parsed<(Seq<NodeId>, Option<Declared>)> {
    match taken(st, TokenType::LParen, false) {
        Err(e) => Err(e),
        Ok(s1) => match lambda_params(s1, Seq::empty()) {
            Err(e) => Err(e),
            Ok((s2, params)) => match taken(s2, TokenType::RParen, s2.infix) {
                Err(e) => Err(e),
                Ok(s3) => match optional_signature(s3) {
                    Err(e) => Err(e),
                    Ok((s4, sig)) => match taken(s4, TokenType::LBrace, false) {
                        Err(e) => Err(e),
                        Ok(s5) => Ok((s5, (params, sig))),
                    },
                },
            },
        },
    }
}

/// A function: parameters, an optional signature, and a body in braces.
pub open spec fn lambda(st: State, pos: usize) -> Parsed<NodeId>
    decreases left_over(st), 0int,
{
    match lambda_head(st) {
        Err(e) => Err(e),
        Ok((s1, head)) => if !eats(st, s1) {
            stuck()
        } else {
            match expression(s1, 0) {
                Err(e) => Err(e),
                Ok((s2, body)) => match taken(s2, TokenType::RBrace, true) {
                    Err(e) => Err(e),
                    Ok(s3) => grown(
                        s3,
                        Node::Lambda { params: head.0, body, signature: head.1, pos, thunk: false },
                    ),
                },
            }
        },
    }
}

/// An operator, its right operand, and the node for both.
pub open spec fn operation(st: State, left: NodeId, op: BinaryOp, rbp: int) -> Parsed<NodeId>
    decreases left_over(st), 0int,
{
    match advanced_prefix(st) {
        Err(e) => Err(e),
        Ok(s1) => if !eats(st, s1) {
            stuck()
        } else {
            match expression(s1, rbp) {
                Err(e) => Err(e),
                Ok((s2, rhs)) => grown(s2, binary_node(op, left, rhs, st.token.pos)),
            }
        },
    }
}

/// An operator that something must follow.
pub open spec fn full_operation(st: State, left: NodeId, op: BinaryOp, rbp: int) -> Parsed<NodeId>
    decreases left_over(st), 0int,
{
    match advanced_prefix(st) {
        Err(e) => Err(e),
        Ok(s1) => if s1.token.typ == TokenType::EOF {
            Err(fault_at("S0207"@, s1.token.pos))
        } else if !eats(st, s1) {
            stuck()
        } else {
            match expression(s1, rbp) {
                Err(e) => Err(e),
                Ok((s2, rhs)) => grown(s2, binary_node(op, left, rhs, st.token.pos)),
            }
        },
    }
}

/// What follows an operand.
pub open spec fn led(st: State, left: NodeId) -> Parsed<NodeId>
    decreases left_over(st), 1int,
{
    match st.token.typ {
        TokenType::Dot => operation(st, left, BinaryOp::Dot, 74),
        TokenType::LParen => call(st, left),
        TokenType::LBracket => subscript(st, left),
        TokenType::LBrace => group_by(st, left),
        TokenType::At => focus(st, left),
        TokenType::Hash => index(st, left),
        TokenType::Question => condition(st, left),
        TokenType::Assign => binding(st, left),
        TokenType::Caret => sort(st, left),
        TokenType::Chain => operation(st, left, BinaryOp::Chain, 44),
        TokenType::Elvis => operation(st, left, BinaryOp::CondTern, 19),
        TokenType::Coalesce => operation(st, left, BinaryOp::NullCoal, 19),
        TokenType::DotDot => operation(st, left, BinaryOp::Range, 19),
        TokenType::And => operation(st, left, BinaryOp::And, 30),
        TokenType::Or => operation(st, left, BinaryOp::Or, 25),
        TokenType::In => operation(st, left, BinaryOp::In, 40),
        TokenType::Pipe => operation(st, left, BinaryOp::Pipe, 19),
        TokenType::Equals => full_operation(st, left, BinaryOp::Eq, 40),
        TokenType::NE => full_operation(st, left, BinaryOp::Ne, 40),
        TokenType::LT => full_operation(st, left, BinaryOp::Lt, 40),
        TokenType::GT => full_operation(st, left, BinaryOp::Gt, 40),
        TokenType::LE => full_operation(st, left, BinaryOp::Le, 40),
        TokenType::GE => full_operation(st, left, BinaryOp::Ge, 40),
        TokenType::Plus => full_operation(st, left, BinaryOp::Add, 50),
        TokenType::Minus => full_operation(st, left, BinaryOp::Sub, 50),
        TokenType::Star => full_operation(st, left, BinaryOp::Mul, 60),
        TokenType::Slash => full_operation(st, left, BinaryOp::Div, 60),
        TokenType::Percent => full_operation(st, left, BinaryOp::Mod, 60),
        TokenType::StarStar => full_operation(st, left, BinaryOp::Pow, 60),
        TokenType::Amp => full_operation(st, left, BinaryOp::Concat, 50),
        _ => Err(fault_at("S0201"@, st.token.pos)),
    }
}

/// A call, or a partial application where an argument is a placeholder.
pub open spec fn call(st: State, left: NodeId) -> Parsed<NodeId>
    decreases left_over(st), 0int,
{
    match advanced_prefix(st) {
        Err(e) => Err(e),
        Ok(s1) => if !eats(st, s1) {
            stuck()
        } else {
            match call_args(s1, Seq::empty(), false) {
                Err(e) => Err(e),
                Ok((s2, (ids, partial))) => match advanced_infix(s2) {
                    Err(e) => Err(e),
                    Ok(s3) => grown(
                        s3,
                        if partial {
                            Node::Partial { procedure: left, arguments: ids, pos: st.token.pos }
                        } else {
                            Node::Function {
                                procedure: left,
                                arguments: ids,
                                pos: st.token.pos,
                                thunk: false,
                                keep_array: false,
                                group: None,
                            }
                        },
                    ),
                },
            }
        },
    }
}

/// The rest of the arguments of a call, up to its closing parenthesis, and
/// whether a placeholder is among them.
pub open spec fn call_args(st: State, done: Seq<NodeId>, partial: bool) -> Parsed<(Seq<NodeId>, bool)>
    decreases left_over(st), 3int,
{
    if st.token.typ == TokenType::RParen {
        Ok((st, (done, partial)))
    } else if st.token.typ == TokenType::EOF {
        Err(fault_at("S0203"@, st.token.pos))
    } else {
        match expression(st, 0) {
            Err(e) => Err(e),
            Ok((s1, id)) => {
                let p = partial || node_at(s1.nodes, id) matches Some(Node::Placeholder { .. });
                if s1.token.typ == TokenType::Comma {
                    match advanced_prefix(s1) {
                        Err(e) => Err(e),
                        Ok(s2) => if !eats(st, s2) {
                            stuck()
                        } else {
                            call_args(s2, done.push(id), p)
                        },
                    }
                } else if s1.token.typ == TokenType::RParen {
                    Ok((s1, (done.push(id), p)))
                } else if s1.token.typ == TokenType::EOF {
                    Err(fault_at("S0203"@, s1.token.pos))
                } else {
                    Err(fault_at("S0202"@, s1.token.pos))
                }
            },
        }
    }
}

/// A predicate or an index in brackets; empty brackets mark the operand.
pub open spec fn subscript(st: State, left: NodeId) -> Parsed<NodeId>
    decreases left_over(st), 0int,
{
    if grouped(node_at(st.nodes, left)) {
        Err(fault_at("S0209"@, st.token.pos))
    } else {
        match advanced_prefix(st) {
            Err(e) => Err(e),
            Ok(s1) => if s1.token.typ == TokenType::RBracket {
                match advanced_infix(s1) {
                    Err(e) => Err(e),
                    Ok(s2) => Ok(
                        (
                            State {
                                nodes: changed(s2.nodes, left, with_keep_array(s2.nodes[left.index as int])),
                                ..s2
                            },
                            left,
                        ),
                    ),
                }
            } else if !eats(st, s1) {
                stuck()
            } else {
                match expression(s1, 0) {
                    Err(e) => Err(e),
                    Ok((s2, rhs)) => match taken(s2, TokenType::RBracket, true) {
                        Err(e) => Err(e),
                        Ok(s3) => grown(s3, binary_node(BinaryOp::Subscript, left, rhs, st.token.pos)),
                    },
                }
            },
        }
    }
}

/// A group-by in braces.
pub open spec fn group_by(st: State, left: NodeId) -> Parsed<NodeId>
    decreases left_over(st), 0int,
{
    if grouped(node_at(st.nodes, left)) {
        Err(fault_at("S0210"@, st.token.pos))
    } else {
        match advanced_prefix(st) {
            Err(e) => Err(e),
            Ok(s1) => if !eats(st, s1) {
                stuck()
            } else {
                match object_pairs(s1, Seq::empty()) {
                    Err(e) => Err(e),
                    Ok((s2, ids)) => group_placed(
                        State { infix: true, ..s2 },
                        left,
                        Group { pairs: paired(ids), pos: st.token.pos },
                    ),
                }
            },
        }
    }
}

/// A group-by put on its operand, or on a node around it.
pub open spec fn group_placed(st: State, left: NodeId, g: Group) -> Parsed<NodeId> {
    match node_at(st.nodes, left) {
        Some(n) => match with_group(n, g) {
            Some(m) => Ok((State { nodes: changed(st.nodes, left, m), ..st }, left)),
            None => grown(st, Node::Grouped { expr: left, group: g, pos: g.pos }),
        },
        None => grown(st, Node::Grouped { expr: left, group: g, pos: g.pos }),
    }
}

/// The variable that must follow `@` or `#`, with the state after it.
pub open spec fn bound_variable(st: State) -> Parsed<Seq<char>> {
    match advanced(st) {
        Err(e) => Err(e),
        Ok(s1) => if s1.token.typ != TokenType::Variable {
            Err(fault_on("S0214"@, st.token.pos, binder(st.token.typ)))
        } else {
            match advanced_infix(s1) {
                Err(e) => Err(e),
                Ok(s2) => Ok((s2, s1.token.value)),
            }
        },
    }
}

pub open spec fn binder(t: TokenType) -> Seq<char> {
    if t == TokenType::At {
        "@"@
    } else {
        "#"@
    }
}

/// A focus binding.
pub open spec fn focus(st: State, left: NodeId) -> Parsed<NodeId> {
    if node_at(st.nodes, left) matches Some(Node::Binary { op, .. }) && op == BinaryOp::Subscript {
        Err(fault_at("S0215"@, st.token.pos))
    } else if node_at(st.nodes, left) matches Some(Node::Sort { .. }) {
        Err(fault_at("S0216"@, st.token.pos))
    } else {
        match bound_variable(st) {
            Err(e) => Err(e),
            Ok((s1, v)) => Ok(
                (
                    State { nodes: changed(s1.nodes, left, with_focus(s1.nodes[left.index as int], v)), ..s1 },
                    left,
                ),
            ),
        }
    }
}

/// An index binding.
pub open spec fn index(st: State, left: NodeId) -> Parsed<NodeId> {
    match bound_variable(st) {
        Err(e) => Err(e),
        Ok((s1, v)) => Ok(
            (
                State { nodes: changed(s1.nodes, left, with_index(s1.nodes[left.index as int], v)), ..s1 },
                left,
            ),
        ),
    }
}

/// A condition, with or without an alternative.
pub open spec fn condition(st: State, left: NodeId) -> Parsed<NodeId>
    decreases left_over(st), 0int,
{
    match advanced_prefix(st) {
        Err(e) => Err(e),
        Ok(s1) => if !eats(st, s1) {
            stuck()
        } else {
            match expression(s1, 0) {
                Err(e) => Err(e),
                Ok((s2, then_)) => if s2.token.typ == TokenType::Colon {
                    match advanced_prefix(s2) {
                        Err(e) => Err(e),
                        Ok(s3) => if !eats(st, s3) {
                            stuck()
                        } else {
                            match expression(s3, 0) {
                                Err(e) => Err(e),
                                Ok((s4, other)) => grown(
                                    s4,
                                    Node::Condition {
                                        condition: left,
                                        then_,
                                        else_: Some(other),
                                        pos: st.token.pos,
                                    },
                                ),
                            }
                        },
                    }
                } else {
                    grown(s2, Node::Condition { condition: left, then_, else_: None, pos: st.token.pos })
                },
            }
        },
    }
}

/// A variable binding.
pub open spec fn binding(st: State, left: NodeId) -> Parsed<NodeId>
    decreases left_over(st), 0int,
{
    if !(node_at(st.nodes, left) matches Some(Node::Variable { .. })) {
        Err(fault_at("S0212"@, st.token.pos))
    } else {
        match advanced_prefix(st) {
            Err(e) => Err(e),
            Ok(s1) => if !eats(st, s1) {
                stuck()
            } else {
                match expression(s1, 9) {
                    Err(e) => Err(e),
                    Ok((s2, rhs)) => grown(s2, Node::Bind { lhs: left, rhs, pos: st.token.pos }),
                }
            },
        }
    }
}

/// An order-by.
pub open spec fn sort(st: State, left: NodeId) -> Parsed<NodeId>
    decreases left_over(st), 0int,
{
    match advanced(st) {
        Err(e) => Err(e),
        Ok(s1) => match taken(s1, TokenType::LParen, false) {
            Err(e) => Err(e),
            Ok(s2) => if !eats(st, s2) {
                stuck()
            } else {
                match sort_terms(s2, Seq::empty()) {
                    Err(e) => Err(e),
                    Ok((s3, terms)) => match advanced_infix(s3) {
                        Err(e) => Err(e),
                        Ok(s4) => grown(
                            s4,
                            Node::Sort {
                                expr: left,
                                terms,
                                keep_array: false,
                                index: None,
                                focus: None,
                                pos: st.token.pos,
                            },
                        ),
                    },
                }
            },
        },
    }
}

/// The rest of the terms of an order-by, up to the closing parenthesis.
pub open spec fn sort_terms(st: State, done: Seq<SortTerm>) -> Parsed<Seq<SortTerm>>
    decreases left_over(st), 3int,
{
    if st.token.typ == TokenType::RParen {
        Ok((st, done))
    } else if st.token.typ == TokenType::EOF {
        Err(fault_at("S0202"@, st.token.pos))
    } else {
        let marked = st.token.typ == TokenType::GT || st.token.typ == TokenType::LT;
        match if marked {
            advanced_prefix(st)
        } else {
            Ok(st)
        } {
            Err(e) => Err(e),
            Ok(s1) => if marked && !eats(st, s1) {
                stuck()
            } else {
                match expression(s1, 0) {
                    Err(e) => Err(e),
                    Ok((s2, id)) => match if s2.token.typ == TokenType::Comma {
                        advanced_prefix(s2)
                    } else {
                        Ok(s2)
                    } {
                        Err(e) => Err(e),
                        Ok(s3) => if !eats(st, s3) {
                            stuck()
                        } else {
                            sort_terms(
                                s3,
                                done.push(
                                    SortTerm { descending: st.token.typ == TokenType::GT, expression: id },
                                ),
                            )
                        },
                    },
                }
            },
        }
    }
}

/// The syntax tree of a source text: the nodes and the root among them, or
/// what is wrong with it. Signatures are read as `reads` says.
pub open spec fn parsed(src: Seq<char>, reads: Readings) -> Result<(Seq<Node>, NodeId), Fault> {
    let st = State {
        src,
        at: 0,
        token: plain(TokenType::EOF, Seq::empty(), 0),
        infix: false,
        nodes: Seq::empty(),
        depth: 0,
        reads,
    };
    match advanced(st) {
        Err(e) => Err(e),
        Ok(s1) => if s1.token.typ == TokenType::EOF {
            Ok((s1.nodes, no_node()))
        } else {
            match expression(s1, 0) {
                Err(e) => Err(e),
                Ok((s2, root)) => if s2.token.typ != TokenType::EOF {
                    Err(fault_on("S0201"@, s2.token.pos, s2.token.value))
                } else {
                    Ok((s2.nodes, root))
                },
            }
        },
    }
}

/// A parser of expressions. The evaluator reads the inside of signatures for it.
pub struct Parser<'a, G: Fn(&str) -> Result<usize, JsonataError>> {
    lex: Lexer,
    token: Token,
    infix: bool,
    arena: AstArena,
    depth: usize,
    read: &'a G,
}

impl<'a, G: Fn(&str) -> Result<usize, JsonataError>> View for Parser<'a, G> {
    type V = State;

    closed spec fn view(&self) -> State {
        State {
            src: self.lex.src@,
            at: self.lex.pos as int,
            token: self.token@,
            infix: self.infix,
            nodes: self.arena.all(),
            depth: self.depth as int,
            reads: readings(*self.read),
        }
    }
}

/// Whether a result and the state after it are what is expected, and something
/// was read.
spec fn gives<G: Fn(&str) -> Result<usize, JsonataError>>(
    before: Parser<G>,
    after: Parser<G>,
    r: Result<NodeId, JsonataError>,
    want: Parsed<NodeId>,
) -> bool {
    match r {
        Ok(id) => want == Ok::<(State, NodeId), Fault>((after@, id)) && after.wf() && eats(before@, after@),
        Err(e) => want == Err::<(State, NodeId), Fault>(fault(e)),
    }
}

/// Whether an operator cannot follow an operand, which shows before anything is
/// read or made.
spec fn refused(st: State, left: NodeId) -> bool {
    let n = node_at(st.nodes, left);
    match st.token.typ {
        TokenType::Assign => !(n matches Some(Node::Variable { .. })),
        TokenType::LBracket => grouped(n),
        TokenType::LBrace => grouped(n),
        TokenType::At => (n matches Some(Node::Binary { op, .. }) && op == BinaryOp::Subscript) || (n matches Some(
            Node::Sort { .. },
        )),
        _ => false,
    }
}

/// Whether a step to the next token went as expected.
spec fn moves<G: Fn(&str) -> Result<usize, JsonataError>>(
    before: Parser<G>,
    after: Parser<G>,
    r: Result<(), JsonataError>,
    want: Result<State, Fault>,
) -> bool {
    match r {
        Ok(_) => {
            &&& want == Ok::<State, Fault>(after@)
            &&& after.wf()
            &&& left_over(after@) <= left_over(before@)
            &&& before@.token.typ != TokenType::EOF ==> eats(before@, after@)
            &&& after.arena == before.arena
            &&& after.depth == before.depth
        },
        Err(e) => want == Err::<State, Fault>(fault(e)),
    }
}


// ── Fresh nodes ──────────────────────────────────────────────────────────────

pub(crate) fn plain_name(value: String, pos: usize) -> (r: Expr)
    ensures
        r@ == name_node(value@, pos),
{
    let r = Expr::Name {
        value,
        pos,
        keep_array: false,
        stages: Vec::new(),
        group: None,
        focus: None,
        index: None,
    };
    assert(r@->Name_stages =~= Seq::<Step>::empty());
    r
}

fn plain_variable(name: String, pos: usize) -> (r: Expr)
    ensures
        r@ == variable_node(name@, pos),
{
    Expr::Variable { name, group: None, keep_array: false, focus: None, index: None, pos }
}

fn plain_binary(op: BinaryOp, lhs: NodeId, rhs: NodeId, pos: usize) -> (r: Expr)
    ensures
        r@ == binary_node(op, lhs, rhs, pos),
{
    Expr::Binary { op, lhs, rhs, group: None, keep_array: false, focus: None, index: None, pos }
}

fn plain_unary(op: UnaryOp, operand: NodeId, expressions: Vec<NodeId>, lhs: Vec<NodeId>, pos: usize) -> (r: Expr)
    ensures
        r@ == unary_node(op, operand, expressions@, lhs@, pos),
{
    Expr::Unary { op, operand, expressions, lhs, group: None, keep_array: false, pos }
}

fn no_ids() -> (r: Vec<NodeId>)
    ensures
        r@ == Seq::<NodeId>::empty(),
{
    let r: Vec<NodeId> = Vec::new();
    assert(r@ =~= Seq::<NodeId>::empty());
    r
}

fn negate_literal(raw: &str) -> (r: String)
    ensures
        r@ == negated_literal(raw@),
{
    let c = chars_of(raw);
    if c.len() > 0 && c[0] == '-' {
        let t = part(c.as_slice(), 1, c.len());
        assert(t@ =~= raw@.skip(1));
        return text_of(t.as_slice());
    }
    let mut t: Vec<char> = Vec::new();
    t.push('-');
    push_all(&mut t, c.as_slice());
    assert(t@ =~= negated_literal(raw@));
    text_of(t.as_slice())
}

fn within_brackets(raw: &[char]) -> (r: Vec<char>)
    ensures
        r@ == inside(raw@),
{
    let n: usize = raw.len();
    if n >= 2 && raw[0] == '<' && raw[n - 1] == '>' {
        let t = part(raw, 1, n - 1);
        assert(t@ =~= inside(raw@));
        t
    } else {
        part(raw, 0, n)
    }
}

/// Whether a result is the expected list and state after it.
spec fn lists<G: Fn(&str) -> Result<usize, JsonataError>>(
    before: Parser<G>,
    after: Parser<G>,
    r: Result<Vec<NodeId>, JsonataError>,
    want: Parsed<Seq<NodeId>>,
) -> bool {
    match r {
        Ok(v) => {
            &&& want == Ok::<(State, Seq<NodeId>), Fault>((after@, v@))
            &&& after.wf()
            &&& left_over(after@) <= left_over(before@)
        },
        Err(e) => want == Err::<(State, Seq<NodeId>), Fault>(fault(e)),
    }
}

impl<'a, G: Fn(&str) -> Result<usize, JsonataError>> Parser<'a, G> {
    spec fn wf(self) -> bool {
        self.lex.wf() && self.depth <= MAX_PARSE_DEPTH && self.arena.flags@.len() == 0 && readable(*self.read)
    }

    fn step(&mut self, infix: bool) -> (r: Result<(), JsonataError>)
        requires
            old(self).wf(),
        ensures
            moves(*old(self), *final(self), r, next(old(self)@, infix)),
    {
        proof {
            reveal(next);
        }
        match self.lex.next(infix) {
            Ok(t) => {
                self.token = t;
                self.infix = false;
                Ok(())
            },
            Err(e) => Err(e),
        }
    }

    fn advance(&mut self) -> (r: Result<(), JsonataError>)
        requires
            old(self).wf(),
        ensures
            moves(*old(self), *final(self), r, advanced(old(self)@)),
    {
        let infix: bool = self.infix;
        self.step(infix)
    }

    fn advance_prefix(&mut self) -> (r: Result<(), JsonataError>)
        requires
            old(self).wf(),
        ensures
            moves(*old(self), *final(self), r, advanced_prefix(old(self)@)),
    {
        self.step(false)
    }

    fn advance_infix(&mut self) -> (r: Result<(), JsonataError>)
        requires
            old(self).wf(),
        ensures
            moves(*old(self), *final(self), r, advanced_infix(old(self)@)),
    {
        self.step(true)
    }

    fn consume(&mut self, expected: TokenType, infix: bool) -> (r: Result<(), JsonataError>)
        requires
            old(self).wf(),
        ensures
            moves(*old(self), *final(self), r, taken(old(self)@, expected, infix)),
    {
        if self.token.typ != expected {
            return Err(error_on("S0202", "unexpected token", self.token.pos, self.token.value.clone()));
        }
        self.step(infix)
    }

    fn grow(&mut self, expr: Expr) -> (r: Result<NodeId, JsonataError>)
        requires
            old(self).wf(),
        ensures
            match r {
                Ok(id) => {
                    &&& grown(old(self)@, expr@) == Ok::<(State, NodeId), Fault>((final(self)@, id))
                    &&& final(self).wf()
                    &&& left_over(final(self)@) == left_over(old(self)@)
                },
                Err(e) => grown(old(self)@, expr@) == Err::<(State, NodeId), Fault>(fault(e)),
            },
    {
        match self.arena.add_node(expr) {
            Ok(id) => Ok(id),
            Err(e) => {
                assert(e.token@ =~= Seq::<char>::empty());
                Err(e)
            },
        }
    }

    fn leaf(&mut self, expr: Expr) -> (r: Result<NodeId, JsonataError>)
        requires
            old(self).wf(),
            old(self)@.token.typ != TokenType::EOF,
        ensures
            gives(*old(self), *final(self), r, leaf(old(self)@, expr@)),
    {
        match self.advance_infix() {
            Ok(_) => self.grow(expr),
            Err(e) => Err(e),
        }
    }

    /// An expression whose operators bind more tightly than `rbp`.
    ///
    /// `stacker::maybe_grow`: runs its closure, on a larger stack where little
    /// of the present one is left, and gives what the closure gives. The
    /// closure calls `expression_inner`, whose contract this one repeats.
    #[verifier::external_body]
    fn expression(&mut self, rbp: i32) -> (r: Result<NodeId, JsonataError>)
        requires
            old(self).wf(),
        ensures
            gives(*old(self), *final(self), r, expression(old(self)@, rbp as int)),
    {
        stacker::maybe_grow(128 * 1024, 4 * 1024 * 1024, || self.expression_inner(rbp))
    }

    fn expression_inner(&mut self, rbp: i32) -> (r: Result<NodeId, JsonataError>)
        requires
            old(self).wf(),
        ensures
            gives(*old(self), *final(self), r, expression(old(self)@, rbp as int)),
    {
        let ghost st = self@;
        let depth: usize = self.depth;
        if depth >= MAX_PARSE_DEPTH {
            return Err(error_at("S0210", "expression is too deeply nested", self.token.pos));
        }
        self.depth = depth + 1;
        let ghost s0 = self@;
        assert(s0 == State { depth: st.depth + 1, ..st });
        let mut left: NodeId = match self.nud() {
            Ok(id) => id,
            Err(e) => {
                return Err(e);
            },
        };
        let ghost s1 = self@;
        let ghost first = left;
        assert(eats(st, s1));
        while binding_power(self.token.typ) > rbp
            invariant
                self.wf(),
                eats(st, self@),
                infixes(s1, first, rbp as int) == infixes(self@, left, rbp as int),
                st == old(self)@,
                depth == st.depth,
                st.depth + 1 <= MAX_PARSE_DEPTH,
                s0 == (State { depth: st.depth + 1, ..st }),
                nud(s0) == Ok::<(State, NodeId), Fault>((s1, first)),
                eats(st, s1),
            decreases left_over(self@),
        {
            match self.led(left) {
                Ok(id) => {
                    left = id;
                },
                Err(e) => {
                    return Err(e);
                },
            }
        }
        self.depth = depth;
        Ok(left)
    }

    // ── Start of an expression ───────────────────────────────────────────────

    fn nud(&mut self) -> (r: Result<NodeId, JsonataError>)
        requires
            old(self).wf(),
        ensures
            gives(*old(self), *final(self), r, nud(old(self)@)),
    {
        let tok = self.token.clone();
        let pos: usize = tok.pos;
        match tok.typ {
            TokenType::Name => self.nud_name(tok),
            TokenType::And | TokenType::Or | TokenType::In => {
                let e = plain_name(tok.value, pos);
                self.leaf(e)
            },
            TokenType::Variable => {
                let e = plain_variable(tok.value, pos);
                self.leaf(e)
            },
            TokenType::String => self.leaf(Expr::StringLit { value: tok.value, pos }),
            TokenType::Number => self.leaf(Expr::NumberLit { value: tok.num_val, raw: tok.value, pos }),
            TokenType::Value => self.leaf(Expr::ValueLit { value: tok.value, pos }),
            TokenType::Regex => self.leaf(Expr::Regex { pattern: tok.regex_pat, flags: tok.regex_flg, pos }),
            TokenType::Star => self.leaf(Expr::Wildcard { keep_array: false, pos }),
            TokenType::StarStar => self.leaf(Expr::Descendant { keep_array: false, pos }),
            TokenType::Percent => self.leaf(Expr::Parent { pos, slot: None }),
            TokenType::Question => self.leaf(Expr::Placeholder { pos }),
            TokenType::Minus => self.nud_minus(),
            TokenType::LBracket => self.nud_array(),
            TokenType::LBrace => self.nud_object(),
            TokenType::LParen => self.nud_block(),
            TokenType::Pipe | TokenType::Tilde => self.parse_transform(pos),
            TokenType::Chain => Err(error_at("S0211", "the ~> operator cannot be used as a prefix", pos)),
            TokenType::EOF => Err(error_at("S0201", "unexpected end of expression", pos)),
            _ => Err(error_naming("S0211", "unexpected token: ", pos, tok.value)),
        }
    }

    fn nud_name(&mut self, tok: Token) -> (r: Result<NodeId, JsonataError>)
        requires
            old(self).wf(),
            old(self)@.token == tok@,
            tok.typ == TokenType::Name,
        ensures
            gives(*old(self), *final(self), r, nud(old(self)@)),
    {
        match self.advance_infix() {
            Ok(_) => {},
            Err(e) => {
                return Err(e);
            },
        }
        let word = chars_of(tok.value.as_str());
        if (is_text(word.as_slice(), "function") || is_text(word.as_slice(), "λ")) && self.token.typ
            == TokenType::LParen {
            return self.parse_lambda(tok.pos);
        }
        let e = plain_name(tok.value, tok.pos);
        self.grow(e)
    }

    fn nud_minus(&mut self) -> (r: Result<NodeId, JsonataError>)
        requires
            old(self).wf(),
            old(self)@.token.typ == TokenType::Minus,
        ensures
            gives(*old(self), *final(self), r, negation(old(self)@)),
    {
        let pos: usize = self.token.pos;
        match self.advance_prefix() {
            Ok(_) => {},
            Err(e) => {
                return Err(e);
            },
        }
        let rhs: NodeId = match self.expression(70) {
            Ok(id) => id,
            Err(e) => {
                return Err(e);
            },
        };
        let folded: Option<Expr> = match self.arena.try_get(rhs) {
            Some(Expr::NumberLit { value, raw, pos: at }) => Some(
                Expr::NumberLit { value: value.neg(), raw: negate_literal(raw.as_str()), pos: *at },
            ),
            _ => None,
        };
        match folded {
            Some(e) => {
                self.arena.put(rhs, e);
                Ok(rhs)
            },
            None => self.grow(plain_unary(UnaryOp::Negate, rhs, no_ids(), no_ids(), pos)),
        }
    }

    fn nud_array(&mut self) -> (r: Result<NodeId, JsonataError>)
        requires
            old(self).wf(),
            old(self)@.token.typ == TokenType::LBracket,
        ensures
            gives(*old(self), *final(self), r, array(old(self)@)),
    {
        let pos: usize = self.token.pos;
        match self.advance_prefix() {
            Ok(_) => {},
            Err(e) => {
                return Err(e);
            },
        }
        let items: Vec<NodeId> = match self.array_items() {
            Ok(v) => v,
            Err(e) => {
                return Err(e);
            },
        };
        match self.advance_infix() {
            Ok(_) => {},
            Err(e) => {
                return Err(e);
            },
        }
        self.grow(plain_unary(UnaryOp::ArrayCons, NodeId::empty(), items, no_ids(), pos))
    }

    fn array_items(&mut self) -> (r: Result<Vec<NodeId>, JsonataError>)
        requires
            old(self).wf(),
        ensures
            lists(*old(self), *final(self), r, array_items(old(self)@, Seq::empty())),
    {
        let ghost want = array_items(self@, Seq::empty());
        let mut items: Vec<NodeId> = no_ids();
        while self.token.typ != TokenType::RBracket
            invariant
                self.wf(),
                left_over(self@) <= left_over(old(self)@),
                want == array_items(old(self)@, Seq::empty()),
                want == array_items(self@, items@),
            decreases left_over(self@),
        {
            if self.token.typ == TokenType::EOF {
                return Err(error_at("S0202", "expected ]", self.token.pos));
            }
            let id: NodeId = match self.expression(0) {
                Ok(id) => id,
                Err(e) => {
                    return Err(e);
                },
            };
            if self.token.typ == TokenType::Comma {
                match self.advance_prefix() {
                    Ok(_) => {},
                    Err(e) => {
                        return Err(e);
                    },
                }
            } else if self.token.typ == TokenType::RBracket {
            } else if self.token.typ == TokenType::RParen || self.token.typ == TokenType::RBrace || self.token.typ
                == TokenType::Colon {
                return Err(error_at("S0202", "unexpected token in array constructor", self.token.pos));
            } else {
                return Err(error_at("S0204", "expected , or ] in array constructor", self.token.pos));
            }
            items.push(id);
        }
        Ok(items)
    }

    fn nud_object(&mut self) -> (r: Result<NodeId, JsonataError>)
        requires
            old(self).wf(),
            old(self)@.token.typ == TokenType::LBrace,
        ensures
            gives(*old(self), *final(self), r, object(old(self)@)),
    {
        let pos: usize = self.token.pos;
        match self.advance_prefix() {
            Ok(_) => {},
            Err(e) => {
                return Err(e);
            },
        }
        match self.parse_object_pairs() {
            Ok(items) => self.grow(plain_unary(UnaryOp::ObjCons, NodeId::empty(), no_ids(), items, pos)),
            Err(e) => Err(e),
        }
    }

    fn parse_object_pairs(&mut self) -> (r: Result<Vec<NodeId>, JsonataError>)
        requires
            old(self).wf(),
        ensures
            lists(*old(self), *final(self), r, object_pairs(old(self)@, Seq::empty())),
    {
        let ghost want = object_pairs(self@, Seq::empty());
        let mut items: Vec<NodeId> = no_ids();
        while self.token.typ != TokenType::RBrace
            invariant
                self.wf(),
                left_over(self@) <= left_over(old(self)@),
                want == object_pairs(old(self)@, Seq::empty()),
                want == object_pairs(self@, items@),
            decreases left_over(self@),
        {
            if self.token.typ == TokenType::EOF {
                return Err(error_at("S0202", "expected } in object constructor", self.token.pos));
            }
            let key: NodeId = match self.expression(0) {
                Ok(id) => id,
                Err(e) => {
                    return Err(e);
                },
            };
            match self.consume(TokenType::Colon, false) {
                Ok(_) => {},
                Err(e) => {
                    return Err(e);
                },
            }
            let value: NodeId = match self.expression(0) {
                Ok(id) => id,
                Err(e) => {
                    return Err(e);
                },
            };
            items.push(key);
            items.push(value);
            if self.token.typ == TokenType::Comma {
                match self.advance_prefix() {
                    Ok(_) => {},
                    Err(e) => {
                        return Err(e);
                    },
                }
            }
        }
        match self.advance_infix() {
            Ok(_) => {},
            Err(e) => {
                return Err(e);
            },
        }
        Ok(items)
    }

    fn nud_block(&mut self) -> (r: Result<NodeId, JsonataError>)
        requires
            old(self).wf(),
            old(self)@.token.typ == TokenType::LParen,
        ensures
            gives(*old(self), *final(self), r, block(old(self)@)),
    {
        let pos: usize = self.token.pos;
        match self.advance_prefix() {
            Ok(_) => {},
            Err(e) => {
                return Err(e);
            },
        }
        let items: Vec<NodeId> = match self.block_items() {
            Ok(v) => v,
            Err(e) => {
                return Err(e);
            },
        };
        if self.token.typ == TokenType::EOF {
            return Err(error_at("S0203", "expected ) before end of expression", self.token.pos));
        }
        if self.token.typ != TokenType::RParen {
            return Err(
                error_on("S0202", "expected ; or ) in block", self.token.pos, self.token.value.clone()),
            );
        }
        match self.advance_infix() {
            Ok(_) => {},
            Err(e) => {
                return Err(e);
            },
        }
        self.grow(Expr::Block { expressions: items, focus: None, index: None, keep_array: false, pos })
    }

    fn block_items(&mut self) -> (r: Result<Vec<NodeId>, JsonataError>)
        requires
            old(self).wf(),
        ensures
            lists(*old(self), *final(self), r, block_items(old(self)@, Seq::empty())),
    {
        let ghost want = block_items(self@, Seq::empty());
        let mut items: Vec<NodeId> = no_ids();
        while self.token.typ != TokenType::RParen
            invariant
                self.wf(),
                left_over(self@) <= left_over(old(self)@),
                want == block_items(old(self)@, Seq::empty()),
                want == block_items(self@, items@),
            decreases left_over(self@),
        {
            if self.token.typ == TokenType::EOF {
                return Err(error_at("S0203", "expected ) before end of expression", self.token.pos));
            }
            let id: NodeId = match self.expression(0) {
                Ok(id) => id,
                Err(e) => {
                    return Err(e);
                },
            };
            items.push(id);
            if self.token.typ != TokenType::Semicolon {
                return Ok(items);
            }
            match self.advance_prefix() {
                Ok(_) => {},
                Err(e) => {
                    return Err(e);
                },
            }
        }
        Ok(items)
    }

    fn parse_transform(&mut self, pos: usize) -> (r: Result<NodeId, JsonataError>)
        requires
            old(self).wf(),
            old(self)@.token.typ != TokenType::EOF,
        ensures
            gives(*old(self), *final(self), r, transform(old(self)@, pos)),
    {
        match self.advance_prefix() {
            Ok(_) => {},
            Err(e) => {
                return Err(e);
            },
        }
        let pattern: NodeId = match self.expression(20) {
            Ok(id) => id,
            Err(e) => {
                return Err(e);
            },
        };
        match self.consume(TokenType::Pipe, false) {
            Ok(_) => {},
            Err(e) => {
                return Err(e);
            },
        }
        let update: NodeId = match self.expression(20) {
            Ok(id) => id,
            Err(e) => {
                return Err(e);
            },
        };
        let delete: Option<NodeId> = if self.token.typ == TokenType::Comma {
            match self.advance_prefix() {
                Ok(_) => {},
                Err(e) => {
                    return Err(e);
                },
            }
            match self.expression(20) {
                Ok(id) => Some(id),
                Err(e) => {
                    return Err(e);
                },
            }
        } else {
            None
        };
        match self.consume(TokenType::Pipe, true) {
            Ok(_) => {},
            Err(e) => {
                return Err(e);
            },
        }
        self.grow(Expr::Transform { pattern, update, delete, pos })
    }

    fn lambda_params(&mut self) -> (r: Result<Vec<NodeId>, JsonataError>)
        requires
            old(self).wf(),
        ensures
            lists(*old(self), *final(self), r, lambda_params(old(self)@, Seq::empty())),
    {
        let ghost want = lambda_params(self@, Seq::empty());
        let mut items: Vec<NodeId> = no_ids();
        while self.token.typ != TokenType::RParen
            invariant
                self.wf(),
                left_over(self@) <= left_over(old(self)@),
                want == lambda_params(old(self)@, Seq::empty()),
                want == lambda_params(self@, items@),
            decreases left_over(self@),
        {
            if self.token.typ != TokenType::Variable {
                return Err(
                    error_on(
                        "S0208",
                        "expected $parameter name in lambda",
                        self.token.pos,
                        self.token.value.clone(),
                    ),
                );
            }
            let e = plain_variable(self.token.value.clone(), self.token.pos);
            let id: NodeId = match self.grow(e) {
                Ok(id) => id,
                Err(e) => {
                    return Err(e);
                },
            };
            items.push(id);
            match self.advance() {
                Ok(_) => {},
                Err(e) => {
                    return Err(e);
                },
            }
            if self.token.typ == TokenType::Comma {
                match self.advance_prefix() {
                    Ok(_) => {},
                    Err(e) => {
                        return Err(e);
                    },
                }
            }
        }
        Ok(items)
    }

    /// The signature of a function, which the evaluator has read.
    fn parse_signature(&mut self) -> (r: Result<Signature, JsonataError>)
        requires
            old(self).wf(),
        ensures
            match r {
                Ok(g) => {
                    &&& signature(old(self)@) == Ok::<(State, Declared), Fault>((final(self)@, g@))
                    &&& final(self).wf()
                    &&& left_over(final(self)@) <= left_over(old(self)@)
                },
                Err(e) => signature(old(self)@) == Err::<(State, Declared), Fault>(fault(e)),
            },
    {
        let start: usize = self.token.pos;
        match self.advance() {
            Ok(_) => {},
            Err(e) => {
                return Err(e);
            },
        }
        let ghost s1 = self@;
        assert(self.lex.src.len() == self.lex.src@.len());
        let ghost want = signature_rest(s1, 1, "<"@);
        let mut depth: i128 = 1;
        let mut raw: Vec<char> = chars_of("<");
        let mut open: bool = true;
        while open
            invariant
                self.wf(),
                left_over(self@) <= left_over(old(self)@),
                advanced(old(self)@) == Ok::<State, Fault>(s1),
                want == signature_rest(s1, 1, "<"@),
                open ==> want == signature_rest(self@, depth as int, raw@),
                !open ==> want == Ok::<(State, Seq<char>), Fault>((self@, raw@)),
                depth + left_over(self@) <= left_over(s1) + 1,
                left_over(s1) <= 2 * s1.src.len() + 1,
                s1.src.len() <= usize::MAX,
                open ==> depth > 0,
            decreases left_over(self@), (if open { 1int } else { 0int }),
        {
            if self.token.typ == TokenType::EOF {
                return Err(error_at("S0202", "unterminated signature", self.token.pos));
            }
            let ghost before = raw@;
            if self.token.typ == TokenType::LT {
                depth = depth + 1;
            } else if self.token.typ == TokenType::GT {
                depth = depth - 1;
            }
            push_text(&mut raw, self.token.value.as_str());
            assert(raw@ =~= before + self@.token.value);
            if depth > 0 {
                match self.advance() {
                    Ok(_) => {},
                    Err(e) => {
                        return Err(e);
                    },
                }
            } else {
                open = false;
            }
        }
        match self.advance() {
            Ok(_) => {},
            Err(e) => {
                return Err(e);
            },
        }
        let inner = text_of(within_brackets(raw.as_slice()).as_slice());
        let answer = (self.read)(inner.as_str());
        proof {
            lemma_reading(*self.read, inner@, answer);
        }
        match answer {
            Ok(params) => Ok(Signature { raw: text_of(raw.as_slice()), params }),
            Err(e) => Err(e.with_position(start)),
        }
    }

    fn parse_lambda(&mut self, pos: usize) -> (r: Result<NodeId, JsonataError>)
        requires
            old(self).wf(),
            old(self)@.token.typ == TokenType::LParen,
        ensures
            gives(*old(self), *final(self), r, lambda(old(self)@, pos)),
    {
        match self.consume(TokenType::LParen, false) {
            Ok(_) => {},
            Err(e) => {
                return Err(e);
            },
        }
        let params: Vec<NodeId> = match self.lambda_params() {
            Ok(v) => v,
            Err(e) => {
                return Err(e);
            },
        };
        let infix: bool = self.infix;
        match self.consume(TokenType::RParen, infix) {
            Ok(_) => {},
            Err(e) => {
                return Err(e);
            },
        }
        let signature: Option<Signature> = if self.token.typ == TokenType::LT {
            match self.parse_signature() {
                Ok(g) => Some(g),
                Err(e) => {
                    return Err(e);
                },
            }
        } else {
            None
        };
        match self.consume(TokenType::LBrace, false) {
            Ok(_) => {},
            Err(e) => {
                return Err(e);
            },
        }
        let body: NodeId = match self.expression(0) {
            Ok(id) => id,
            Err(e) => {
                return Err(e);
            },
        };
        match self.consume(TokenType::RBrace, true) {
            Ok(_) => {},
            Err(e) => {
                return Err(e);
            },
        }
        self.grow(Expr::Lambda { params, body, signature, pos, thunk: false })
    }

    // ── What follows an operand ──────────────────────────────────────────────

    fn led(&mut self, left: NodeId) -> (r: Result<NodeId, JsonataError>)
        requires
            old(self).wf(),
        ensures
            gives(*old(self), *final(self), r, led(old(self)@, left)),
            refused(old(self)@, left) ==> *final(self) == *old(self),
    {
        match self.token.typ {
            TokenType::Dot => self.operation(left, BinaryOp::Dot, 74),
            TokenType::LParen => self.led_call(left),
            TokenType::LBracket => self.led_subscript(left),
            TokenType::LBrace => self.led_group(left),
            TokenType::At => self.led_focus(left),
            TokenType::Hash => self.led_index(left),
            TokenType::Question => self.led_condition(left),
            TokenType::Assign => self.led_binding(left),
            TokenType::Caret => self.parse_sort(left),
            TokenType::Chain => self.operation(left, BinaryOp::Chain, 44),
            TokenType::Elvis => self.operation(left, BinaryOp::CondTern, 19),
            TokenType::Coalesce => self.operation(left, BinaryOp::NullCoal, 19),
            TokenType::DotDot => self.operation(left, BinaryOp::Range, 19),
            TokenType::And => self.operation(left, BinaryOp::And, 30),
            TokenType::Or => self.operation(left, BinaryOp::Or, 25),
            TokenType::In => self.operation(left, BinaryOp::In, 40),
            TokenType::Pipe => self.operation(left, BinaryOp::Pipe, 19),
            TokenType::Equals => self.binary_op(left, BinaryOp::Eq, 40),
            TokenType::NE => self.binary_op(left, BinaryOp::Ne, 40),
            TokenType::LT => self.binary_op(left, BinaryOp::Lt, 40),
            TokenType::GT => self.binary_op(left, BinaryOp::Gt, 40),
            TokenType::LE => self.binary_op(left, BinaryOp::Le, 40),
            TokenType::GE => self.binary_op(left, BinaryOp::Ge, 40),
            TokenType::Plus => self.binary_op(left, BinaryOp::Add, 50),
            TokenType::Minus => self.binary_op(left, BinaryOp::Sub, 50),
            TokenType::Star => self.binary_op(left, BinaryOp::Mul, 60),
            TokenType::Slash => self.binary_op(left, BinaryOp::Div, 60),
            TokenType::Percent => self.binary_op(left, BinaryOp::Mod, 60),
            TokenType::StarStar => self.binary_op(left, BinaryOp::Pow, 60),
            TokenType::Amp => self.binary_op(left, BinaryOp::Concat, 50),
            _ => Err(error_about("S0201", "unexpected token: ", self.token.value.as_str(), "", self.token.pos)),
        }
    }

    fn operation(&mut self, left: NodeId, op: BinaryOp, bp: i32) -> (r: Result<NodeId, JsonataError>)
        requires
            old(self).wf(),
            old(self)@.token.typ != TokenType::EOF,
        ensures
            gives(*old(self), *final(self), r, operation(old(self)@, left, op, bp as int)),
    {
        let pos: usize = self.token.pos;
        match self.advance_prefix() {
            Ok(_) => {},
            Err(e) => {
                return Err(e);
            },
        }
        let rhs: NodeId = match self.expression(bp) {
            Ok(id) => id,
            Err(e) => {
                return Err(e);
            },
        };
        self.grow(plain_binary(op, left, rhs, pos))
    }

    fn binary_op(&mut self, left: NodeId, op: BinaryOp, bp: i32) -> (r: Result<NodeId, JsonataError>)
        requires
            old(self).wf(),
            old(self)@.token.typ != TokenType::EOF,
        ensures
            gives(*old(self), *final(self), r, full_operation(old(self)@, left, op, bp as int)),
    {
        let pos: usize = self.token.pos;
        match self.advance_prefix() {
            Ok(_) => {},
            Err(e) => {
                return Err(e);
            },
        }
        if self.token.typ == TokenType::EOF {
            return Err(error_about("S0207", "nothing follows the \"", op.as_str(), "\" operator", self.token.pos));
        }
        let rhs: NodeId = match self.expression(bp) {
            Ok(id) => id,
            Err(e) => {
                return Err(e);
            },
        };
        self.grow(plain_binary(op, left, rhs, pos))
    }

    fn led_call(&mut self, left: NodeId) -> (r: Result<NodeId, JsonataError>)
        requires
            old(self).wf(),
            old(self)@.token.typ == TokenType::LParen,
        ensures
            gives(*old(self), *final(self), r, call(old(self)@, left)),
    {
        let pos: usize = self.token.pos;
        match self.advance_prefix() {
            Ok(_) => {},
            Err(e) => {
                return Err(e);
            },
        }
        let (arguments, partial) = match self.call_args() {
            Ok(p) => p,
            Err(e) => {
                return Err(e);
            },
        };
        match self.advance_infix() {
            Ok(_) => {},
            Err(e) => {
                return Err(e);
            },
        }
        if partial {
            self.grow(Expr::Partial { procedure: left, arguments, pos })
        } else {
            self.grow(
                Expr::Function { procedure: left, arguments, pos, thunk: false, keep_array: false, group: None },
            )
        }
    }

    fn call_args(&mut self) -> (r: Result<(Vec<NodeId>, bool), JsonataError>)
        requires
            old(self).wf(),
        ensures
            match r {
                Ok((v, p)) => {
                    &&& call_args(old(self)@, Seq::empty(), false) == Ok::<(State, (Seq<NodeId>, bool)), Fault>(
                        (final(self)@, (v@, p)),
                    )
                    &&& final(self).wf()
                    &&& left_over(final(self)@) <= left_over(old(self)@)
                },
                Err(e) => call_args(old(self)@, Seq::empty(), false) == Err::<(State, (Seq<NodeId>, bool)), Fault>(
                    fault(e),
                ),
            },
    {
        let ghost want = call_args(self@, Seq::empty(), false);
        let mut items: Vec<NodeId> = no_ids();
        let mut partial: bool = false;
        while self.token.typ != TokenType::RParen
            invariant
                self.wf(),
                left_over(self@) <= left_over(old(self)@),
                want == call_args(old(self)@, Seq::empty(), false),
                want == call_args(self@, items@, partial),
            decreases left_over(self@),
        {
            if self.token.typ == TokenType::EOF {
                return Err(error_at("S0203", "expected ) before end of expression", self.token.pos));
            }
            let id: NodeId = match self.expression(0) {
                Ok(id) => id,
                Err(e) => {
                    return Err(e);
                },
            };
            let hole: bool = match self.arena.try_get(id) {
                Some(Expr::Placeholder { .. }) => true,
                _ => false,
            };
            partial = partial || hole;
            items.push(id);
            if self.token.typ == TokenType::Comma {
                match self.advance_prefix() {
                    Ok(_) => {},
                    Err(e) => {
                        return Err(e);
                    },
                }
            } else if self.token.typ == TokenType::RParen {
            } else if self.token.typ == TokenType::EOF {
                return Err(error_at("S0203", "expected ) before end of expression", self.token.pos));
            } else {
                return Err(
                    error_about(
                        "S0202",
                        "expected , or ) in argument list: ",
                        self.token.value.as_str(),
                        "",
                        self.token.pos,
                    ),
                );
            }
        }
        Ok((items, partial))
    }

    fn has_group(&self, id: NodeId) -> (r: bool)
        ensures
            r == grouped(node_at(self@.nodes, id)),
    {
        match self.arena.try_get(id) {
            Some(Expr::Name { group, .. }) => group.is_some(),
            Some(Expr::Binary { group, .. }) => group.is_some(),
            Some(Expr::Variable { group, .. }) => group.is_some(),
            Some(Expr::Unary { group, .. }) => group.is_some(),
            Some(Expr::Function { group, .. }) => group.is_some(),
            Some(Expr::Grouped { .. }) => true,
            _ => false,
        }
    }

    fn copy_of(&self, id: NodeId) -> (r: Option<Expr>)
        ensures
            match r {
                Some(e) => node_at(self@.nodes, id) == Some(e@),
                None => node_at(self@.nodes, id) is None,
            },
    {
        match self.arena.try_get(id) {
            Some(e) => Some(e.clone()),
            None => None,
        }
    }

    fn set_keep_array(&mut self, id: NodeId)
        requires
            old(self).wf(),
        ensures
            final(self).wf(),
            final(self)@ == (State {
                nodes: changed(old(self)@.nodes, id, with_keep_array(old(self)@.nodes[id.index as int])),
                ..old(self)@
            }),
    {
        match self.copy_of(id) {
            Some(e) => {
                self.arena.put(id, keep_array_on(e));
            },
            None => {},
        }
    }

    fn set_focus(&mut self, id: NodeId, name: String)
        requires
            old(self).wf(),
        ensures
            final(self).wf(),
            final(self)@ == (State {
                nodes: changed(old(self)@.nodes, id, with_focus(old(self)@.nodes[id.index as int], name@)),
                ..old(self)@
            }),
    {
        match self.copy_of(id) {
            Some(e) => {
                self.arena.put(id, focus_on(e, name));
            },
            None => {},
        }
    }

    fn set_index(&mut self, id: NodeId, name: String)
        requires
            old(self).wf(),
        ensures
            final(self).wf(),
            final(self)@ == (State {
                nodes: changed(old(self)@.nodes, id, with_index(old(self)@.nodes[id.index as int], name@)),
                ..old(self)@
            }),
    {
        match self.copy_of(id) {
            Some(e) => {
                self.arena.put(id, index_on(e, name));
            },
            None => {},
        }
    }

    fn led_subscript(&mut self, left: NodeId) -> (r: Result<NodeId, JsonataError>)
        requires
            old(self).wf(),
            old(self)@.token.typ == TokenType::LBracket,
        ensures
            gives(*old(self), *final(self), r, subscript(old(self)@, left)),
            refused(old(self)@, left) ==> *final(self) == *old(self),
    {
        let pos: usize = self.token.pos;
        if self.has_group(left) {
            return Err(error_at("S0209", "a predicate cannot follow a grouping expression in a step", pos));
        }
        match self.advance_prefix() {
            Ok(_) => {},
            Err(e) => {
                return Err(e);
            },
        }
        if self.token.typ == TokenType::RBracket {
            match self.advance_infix() {
                Ok(_) => {},
                Err(e) => {
                    return Err(e);
                },
            }
            self.set_keep_array(left);
            return Ok(left);
        }
        let rhs: NodeId = match self.expression(0) {
            Ok(id) => id,
            Err(e) => {
                return Err(e);
            },
        };
        match self.consume(TokenType::RBracket, true) {
            Ok(_) => {},
            Err(e) => {
                return Err(e);
            },
        }
        self.grow(plain_binary(BinaryOp::Subscript, left, rhs, pos))
    }

    fn led_group(&mut self, left: NodeId) -> (r: Result<NodeId, JsonataError>)
        requires
            old(self).wf(),
            old(self)@.token.typ == TokenType::LBrace,
        ensures
            gives(*old(self), *final(self), r, group_by(old(self)@, left)),
            refused(old(self)@, left) ==> *final(self) == *old(self),
    {
        let pos: usize = self.token.pos;
        if self.has_group(left) {
            return Err(error_at("S0210", "each step can only have one grouping expression", pos));
        }
        match self.advance_prefix() {
            Ok(_) => {},
            Err(e) => {
                return Err(e);
            },
        }
        let flat: Vec<NodeId> = match self.parse_object_pairs() {
            Ok(v) => v,
            Err(e) => {
                return Err(e);
            },
        };
        self.infix = true;
        let group = GroupExpr { pairs: pairs_to_group_pairs(&flat), pos };
        match self.copy_of(left) {
            Some(e) => match group_on(e, group) {
                Placed::On(x) => {
                    self.arena.put(left, x);
                    Ok(left)
                },
                Placed::Back(g) => self.grow(Expr::Grouped { expr: left, group: g, pos }),
            },
            None => self.grow(Expr::Grouped { expr: left, group, pos }),
        }
    }

    fn bound_variable(&mut self) -> (r: Result<String, JsonataError>)
        requires
            old(self).wf(),
            old(self)@.token.typ == TokenType::At || old(self)@.token.typ == TokenType::Hash,
        ensures
            match r {
                Ok(v) => {
                    &&& bound_variable(old(self)@) == Ok::<(State, Seq<char>), Fault>((final(self)@, v@))
                    &&& final(self).wf()
                    &&& eats(old(self)@, final(self)@)
                },
                Err(e) => bound_variable(old(self)@) == Err::<(State, Seq<char>), Fault>(fault(e)),
            },
    {
        let pos: usize = self.token.pos;
        let at: bool = self.token.typ == TokenType::At;
        match self.advance() {
            Ok(_) => {},
            Err(e) => {
                return Err(e);
            },
        }
        if self.token.typ != TokenType::Variable {
            let symbol: &str = if at {
                "@"
            } else {
                "#"
            };
            return Err(error_on("S0214", "the operator must be followed by a $variable", pos, symbol.to_owned()));
        }
        let name: String = self.token.value.clone();
        match self.advance_infix() {
            Ok(_) => {},
            Err(e) => {
                return Err(e);
            },
        }
        Ok(name)
    }

    fn led_focus(&mut self, left: NodeId) -> (r: Result<NodeId, JsonataError>)
        requires
            old(self).wf(),
            old(self)@.token.typ == TokenType::At,
        ensures
            gives(*old(self), *final(self), r, focus(old(self)@, left)),
            refused(old(self)@, left) ==> *final(self) == *old(self),
    {
        let pos: usize = self.token.pos;
        match self.arena.try_get(left) {
            Some(Expr::Binary { op, .. }) => {
                if *op == BinaryOp::Subscript {
                    return Err(error_at("S0215", "the @ operator cannot follow a predicate expression", pos));
                }
            },
            Some(Expr::Sort { .. }) => {
                return Err(error_at("S0216", "the @ operator cannot follow a sort expression", pos));
            },
            _ => {},
        }
        match self.bound_variable() {
            Ok(name) => {
                self.set_focus(left, name);
                Ok(left)
            },
            Err(e) => Err(e),
        }
    }

    fn led_index(&mut self, left: NodeId) -> (r: Result<NodeId, JsonataError>)
        requires
            old(self).wf(),
            old(self)@.token.typ == TokenType::Hash,
        ensures
            gives(*old(self), *final(self), r, index(old(self)@, left)),
    {
        match self.bound_variable() {
            Ok(name) => {
                self.set_index(left, name);
                Ok(left)
            },
            Err(e) => Err(e),
        }
    }

    fn led_condition(&mut self, left: NodeId) -> (r: Result<NodeId, JsonataError>)
        requires
            old(self).wf(),
            old(self)@.token.typ == TokenType::Question,
        ensures
            gives(*old(self), *final(self), r, condition(old(self)@, left)),
    {
        let pos: usize = self.token.pos;
        match self.advance_prefix() {
            Ok(_) => {},
            Err(e) => {
                return Err(e);
            },
        }
        let then_: NodeId = match self.expression(0) {
            Ok(id) => id,
            Err(e) => {
                return Err(e);
            },
        };
        let else_: Option<NodeId> = if self.token.typ == TokenType::Colon {
            match self.advance_prefix() {
                Ok(_) => {},
                Err(e) => {
                    return Err(e);
                },
            }
            match self.expression(0) {
                Ok(id) => Some(id),
                Err(e) => {
                    return Err(e);
                },
            }
        } else {
            None
        };
        self.grow(Expr::Condition { condition: left, then_, else_, pos })
    }

    fn led_binding(&mut self, left: NodeId) -> (r: Result<NodeId, JsonataError>)
        requires
            old(self).wf(),
            old(self)@.token.typ == TokenType::Assign,
        ensures
            gives(*old(self), *final(self), r, binding(old(self)@, left)),
            !(node_at(old(self)@.nodes, left) matches Some(Node::Variable { .. })) ==> *final(self) == *old(self),
    {
        let pos: usize = self.token.pos;
        let variable: bool = match self.arena.try_get(left) {
            Some(Expr::Variable { .. }) => true,
            _ => false,
        };
        if !variable {
            return Err(error_at("S0212", "the left side of := must be a $variable name", pos));
        }
        match self.advance_prefix() {
            Ok(_) => {},
            Err(e) => {
                return Err(e);
            },
        }
        let rhs: NodeId = match self.expression(9) {
            Ok(id) => id,
            Err(e) => {
                return Err(e);
            },
        };
        self.grow(Expr::Bind { lhs: left, rhs, pos })
    }

    fn sort_terms(&mut self) -> (r: Result<Vec<SortTerm>, JsonataError>)
        requires
            old(self).wf(),
        ensures
            match r {
                Ok(v) => {
                    &&& sort_terms(old(self)@, Seq::empty()) == Ok::<(State, Seq<SortTerm>), Fault>(
                        (final(self)@, v@),
                    )
                    &&& final(self).wf()
                    &&& left_over(final(self)@) <= left_over(old(self)@)
                },
                Err(e) => sort_terms(old(self)@, Seq::empty()) == Err::<(State, Seq<SortTerm>), Fault>(fault(e)),
            },
    {
        let ghost want = sort_terms(self@, Seq::empty());
        let mut items: Vec<SortTerm> = Vec::new();
        assert(items@ =~= Seq::<SortTerm>::empty());
        while self.token.typ != TokenType::RParen
            invariant
                self.wf(),
                left_over(self@) <= left_over(old(self)@),
                want == sort_terms(old(self)@, Seq::empty()),
                want == sort_terms(self@, items@),
            decreases left_over(self@),
        {
            if self.token.typ == TokenType::EOF {
                return Err(error_at("S0202", "expected ) in sort expression", self.token.pos));
            }
            let descending: bool = self.token.typ == TokenType::GT;
            if descending || self.token.typ == TokenType::LT {
                match self.advance_prefix() {
                    Ok(_) => {},
                    Err(e) => {
                        return Err(e);
                    },
                }
            }
            let id: NodeId = match self.expression(0) {
                Ok(id) => id,
                Err(e) => {
                    return Err(e);
                },
            };
            if self.token.typ == TokenType::Comma {
                match self.advance_prefix() {
                    Ok(_) => {},
                    Err(e) => {
                        return Err(e);
                    },
                }
            }
            items.push(SortTerm { descending, expression: id });
        }
        Ok(items)
    }

    fn parse_sort(&mut self, left: NodeId) -> (r: Result<NodeId, JsonataError>)
        requires
            old(self).wf(),
            old(self)@.token.typ == TokenType::Caret,
        ensures
            gives(*old(self), *final(self), r, sort(old(self)@, left)),
    {
        let pos: usize = self.token.pos;
        match self.advance() {
            Ok(_) => {},
            Err(e) => {
                return Err(e);
            },
        }
        match self.consume(TokenType::LParen, false) {
            Ok(_) => {},
            Err(e) => {
                return Err(e);
            },
        }
        let terms: Vec<SortTerm> = match self.sort_terms() {
            Ok(v) => v,
            Err(e) => {
                return Err(e);
            },
        };
        match self.advance_infix() {
            Ok(_) => {},
            Err(e) => {
                return Err(e);
            },
        }
        self.grow(Expr::Sort { expr: left, terms, keep_array: false, index: None, focus: None, pos })
    }

    /// Parse a source text: the nodes, and the root among them. An empty text
    /// has no root.
    pub fn parse(src: &str, read: &'a G) -> (r: Result<(AstArena, NodeId), JsonataError>)
        requires
            readable(*read),
        ensures
            match r {
                Ok((arena, root)) => parsed(src@, readings(*read)) == Ok::<(Seq<Node>, NodeId), Fault>(
                    (arena.all(), root),
                ) && arena.flags@.len() == 0,
                Err(e) => parsed(src@, readings(*read)) == Err::<(Seq<Node>, NodeId), Fault>(fault(e)),
            },
    {
        let mut parser = Parser {
            lex: Lexer::new(src),
            token: Token::eof(),
            infix: false,
            arena: AstArena::new(),
            depth: 0,
            read,
        };
        match parser.advance() {
            Ok(_) => {},
            Err(e) => {
                return Err(e);
            },
        }
        if parser.token.typ == TokenType::EOF {
            return Ok((parser.arena, NodeId::empty()));
        }
        let root: NodeId = match parser.expression(0) {
            Ok(id) => id,
            Err(e) => {
                return Err(e);
            },
        };
        if parser.token.typ != TokenType::EOF {
            return Err(error_naming("S0201", "unexpected token: ", parser.token.pos, parser.token.value));
        }
        Ok((parser.arena, root))
    }
}

} // verus!
