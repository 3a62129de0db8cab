//! Which operator takes which operands.
use vstd::prelude::*;

use super::ast::{no_node, node_at, BinaryOp, Group, Node, NodeId, SortTerm, UnaryOp, MAX_NODES};
use super::tree::term_ids;
use super::token_places::{infix_op, lemma_token, says_operator, token_of, written};
use super::{
    advanced, advanced_infix, advanced_prefix, array, array_items, binary_node, binding, block, block_items, call,
    call_args, changed, condition, eats, expression, focus, full_operation, group_by, grown, index, infixes, lambda,
    lambda_head, lambda_params, leaf, led, left_over, name_node, negated_literal, negation, next, nud, object,
    object_pairs, operation, optional_signature, paired, parsed, power, signature, signature_rest, sort, sort_terms,
    subscript, taken, transform, transform_end, unary_node, variable_node, with_focus, with_group, with_index,
    with_keep_array, Parsed, Readings, State,
};
use crate::lexer::{plain, TokenType};
use crate::text::occurs_at;

verus! {

// ── Levels ───────────────────────────────────────────────────────────────────

/// How tightly an operator between two operands holds them: a path most, a
/// choice or a range least.
pub open spec fn level(op: BinaryOp) -> int {
    match op {
        BinaryOp::Dot => 8,
        BinaryOp::Mul | BinaryOp::Div | BinaryOp::Mod | BinaryOp::Pow => 7,
        BinaryOp::Add | BinaryOp::Sub | BinaryOp::Concat => 6,
        BinaryOp::Chain => 5,
        BinaryOp::Eq
        | BinaryOp::Ne
        | BinaryOp::Lt
        | BinaryOp::Le
        | BinaryOp::Gt
        | BinaryOp::Ge
        | BinaryOp::In => 4,
        BinaryOp::And => 3,
        BinaryOp::Or => 2,
        _ => 1,
    }
}

/// Whether of two operators of one level the second holds the operand between
/// them.
pub open spec fn groups_right(op: BinaryOp) -> bool {
    level(op) == 8 || level(op) == 5 || level(op) == 1
}

/// Where a node stands in the source text.
pub open spec fn pos_of(n: Node) -> usize {
    match n {
        Node::Name { pos, .. } => pos,
        Node::StringLit { pos, .. } => pos,
        Node::NumberLit { pos, .. } => pos,
        Node::ValueLit { pos, .. } => pos,
        Node::Variable { pos, .. } => pos,
        Node::Wildcard { pos, .. } => pos,
        Node::Descendant { pos, .. } => pos,
        Node::Parent { pos, .. } => pos,
        Node::Regex { pos, .. } => pos,
        Node::Placeholder { pos, .. } => pos,
        Node::Path { pos, .. } => pos,
        Node::Binary { pos, .. } => pos,
        Node::Unary { pos, .. } => pos,
        Node::Block { pos, .. } => pos,
        Node::Condition { pos, .. } => pos,
        Node::Bind { pos, .. } => pos,
        Node::Function { pos, .. } => pos,
        Node::Partial { pos, .. } => pos,
        Node::Lambda { pos, .. } => pos,
        Node::Transform { pos, .. } => pos,
        Node::Sort { pos, .. } => pos,
        Node::Grouped { pos, .. } => pos,
    }
}

/// Whether a node may be what an operator has on its right: an operator of a
/// lower level may not, nor a binding, and a condition only on the right of one
/// of the lowest level.
pub open spec fn may_follow(op: BinaryOp, n: Node) -> bool {
    match n {
        Node::Binary { op: other, .. } => infix_op(other) ==> level(other) > level(op) || (level(other) == level(op)
            && groups_right(op)),
        Node::Condition { .. } => level(op) == 1,
        Node::Bind { .. } => false,
        _ => true,
    }
}

/// Whether a node may be what an operator has on its left: an operator of a
/// lower level may not, nor a condition or a binding. One path may go on after
/// another.
pub open spec fn may_precede(op: BinaryOp, n: Node) -> bool {
    match n {
        Node::Binary { op: other, .. } => infix_op(other) ==> level(other) > level(op) || (level(other) == level(op)
            && (!groups_right(op) || op == BinaryOp::Dot)),
        Node::Condition { .. } => false,
        Node::Bind { .. } => false,
        _ => true,
    }
}

/// What stands before a node in the source text, of what it is made of.
pub open spec fn part_before(n: Node) -> Option<NodeId> {
    match n {
        Node::Binary { lhs, .. } => Some(lhs),
        Node::Condition { condition, .. } => Some(condition),
        Node::Bind { lhs, .. } => Some(lhs),
        Node::Function { procedure, .. } => Some(procedure),
        Node::Partial { procedure, .. } => Some(procedure),
        Node::Sort { expr, .. } => Some(expr),
        Node::Grouped { expr, .. } => Some(expr),
        _ => None,
    }
}

/// What stands behind a node in the source text, of what it is made of but for
/// what it is grouped by, in the order in which it is written.
pub open spec fn parts_behind(n: Node) -> Seq<NodeId> {
    match n {
        Node::Binary { rhs, .. } => seq![rhs],
        Node::Condition { then_, else_: Some(other), .. } => seq![then_, other],
        Node::Condition { then_, else_: None, .. } => seq![then_],
        Node::Bind { rhs, .. } => seq![rhs],
        Node::Function { arguments, .. } => arguments,
        Node::Partial { arguments, .. } => arguments,
        Node::Sort { terms, .. } => term_ids(terms),
        Node::Unary { op: UnaryOp::Negate, operand, .. } => seq![operand],
        Node::Unary { op: UnaryOp::ArrayCons, expressions, .. } => expressions,
        Node::Unary { op: UnaryOp::ObjCons, lhs, .. } => lhs,
        Node::Block { expressions, .. } => expressions,
        Node::Lambda { params, body, .. } => params.push(body),
        Node::Transform { pattern, update, delete: Some(delete), .. } => seq![pattern, update, delete],
        Node::Transform { pattern, update, delete: None, .. } => seq![pattern, update],
        _ => Seq::empty(),
    }
}

/// Whether nodes stand behind a place and before another, one behind the other.
pub open spec fn in_line(nodes: Seq<Node>, ids: Seq<NodeId>, lo: int, hi: int) -> bool {
    &&& forall|k: int|
        0 <= k < ids.len() ==> (#[trigger] ids[k]).index < nodes.len() && lo <= pos_of(nodes[ids[k].index as int]) < hi
    &&& forall|k: int, m: int|
        0 <= k < m < ids.len() ==> pos_of(nodes[(#[trigger] ids[k]).index as int]) < pos_of(
            nodes[(#[trigger] ids[m]).index as int],
        )
}

/// How a step that is one symbol is written.
pub open spec fn step_symbol(n: Node) -> Option<Seq<char>> {
    match n {
        Node::Wildcard { .. } => Some(seq!['*']),
        Node::Descendant { .. } => Some(seq!['*', '*']),
        Node::Parent { .. } => Some(seq!['%']),
        _ => None,
    }
}

/// Whether what a node is made of stands where it should in the source text:
/// each part behind the one before. A step that is one symbol is written where it
/// stands. An operator between two operands is written
/// where it stands, and holds what its level lets it hold.
pub open spec fn well_placed(src: Seq<char>, nodes: Seq<Node>, n: Node) -> bool {
    &&& part_before(n) matches Some(id) ==> id.index < nodes.len() && pos_of(nodes[id.index as int]) < pos_of(n)
    &&& in_line(nodes, parts_behind(n), pos_of(n) + 1, usize::MAX + 1)
    &&& step_symbol(n) matches Some(symbol) ==> occurs_at(src, symbol, pos_of(n) as int)
    &&& n matches Node::Binary { op, lhs, rhs, pos, .. } ==> infix_op(op) ==> {
        &&& occurs_at(src, written(op), pos as int)
        &&& may_precede(op, nodes[lhs.index as int])
        &&& may_follow(op, nodes[rhs.index as int])
    }
}

pub open spec fn in_order(src: Seq<char>, nodes: Seq<Node>, i: int) -> bool {
    well_placed(src, nodes, nodes[i])
}

#[verifier::opaque]
spec fn ordered(src: Seq<char>, nodes: Seq<Node>) -> bool {
    forall|i: int| 0 <= i < nodes.len() ==> #[trigger] in_order(src, nodes, i)
}

// ── Nodes that change ────────────────────────────────────────────────────────

/// What of a node matters for the order of what it is made of.
struct Shape {
    op: Option<BinaryOp>,
    before: Option<NodeId>,
    behind: Seq<NodeId>,
    condition: bool,
    bind: bool,
    symbol: Option<Seq<char>>,
    pos: usize,
}

spec fn shape(n: Node) -> Shape {
    Shape {
        op: match n {
            Node::Binary { op, .. } => Some(op),
            _ => None,
        },
        before: part_before(n),
        behind: parts_behind(n),
        condition: n is Condition,
        bind: n is Bind,
        symbol: step_symbol(n),
        pos: pos_of(n),
    }
}

/// Whether nodes are others with some added, and changed in no way that matters.
#[verifier::opaque]
spec fn extends(before: Seq<Node>, after: Seq<Node>) -> bool {
    &&& before.len() <= after.len()
    &&& forall|i: int| 0 <= i < before.len() ==> shape(#[trigger] after[i]) == shape(before[i])
}

proof fn lemma_extends(a: Seq<Node>, b: Seq<Node>, c: Seq<Node>)
    requires
        extends(a, b),
        extends(b, c),
    ensures
        extends(a, c),
{
    reveal(extends);
    assert forall|i: int| 0 <= i < a.len() implies shape(#[trigger] c[i]) == shape(a[i]) by {
        assert(shape(b[i]) == shape(a[i]));
    }
}

proof fn lemma_extended(a: Seq<Node>, b: Seq<Node>, id: NodeId)
    requires
        extends(a, b),
        id.index < a.len(),
    ensures
        id.index < b.len(),
        shape(b[id.index as int]) == shape(a[id.index as int]),
        a.len() <= b.len(),
{
    reveal(extends);
}

proof fn lemma_same_shape(op: BinaryOp, a: Node, b: Node)
    requires
        shape(a) == shape(b),
    ensures
        may_follow(op, a) == may_follow(op, b),
        may_precede(op, a) == may_precede(op, b),
        pos_of(a) == pos_of(b),
{
}

proof fn lemma_same_line(a: Seq<Node>, b: Seq<Node>, ids: Seq<NodeId>, lo: int, hi: int, more: int)
    requires
        extends(a, b),
        in_line(a, ids, lo, hi),
        hi <= more,
    ensures
        in_line(b, ids, lo, more),
{
    reveal(extends);
    assert forall|k: int| 0 <= k < ids.len() implies (#[trigger] ids[k]).index < b.len() && lo <= pos_of(
        b[ids[k].index as int],
    ) < more by {
        assert(ids[k].index < a.len());
        assert(shape(b[ids[k].index as int]) == shape(a[ids[k].index as int]));
    }
    assert forall|k: int, m: int| 0 <= k < m < ids.len() implies pos_of(b[(#[trigger] ids[k]).index as int]) < pos_of(
        b[(#[trigger] ids[m]).index as int],
    ) by {
        assert(ids[k].index < a.len() && ids[m].index < a.len());
        assert(shape(b[ids[k].index as int]) == shape(a[ids[k].index as int]));
        assert(shape(b[ids[m].index as int]) == shape(a[ids[m].index as int]));
    }
}

proof fn lemma_still_placed(src: Seq<char>, a: Seq<Node>, b: Seq<Node>, n: Node, m: Node)
    requires
        extends(a, b),
        shape(m) == shape(n),
        well_placed(src, a, n),
    ensures
        well_placed(src, b, m),
{
    match part_before(n) {
        Some(id) => {
            lemma_extended(a, b, id);
        },
        None => {},
    }
    lemma_same_line(a, b, parts_behind(n), pos_of(n) + 1, usize::MAX + 1, usize::MAX + 1);
    match n {
        Node::Binary { op, lhs, rhs, pos, .. } => {
            assert(parts_behind(n)[0] == rhs);
            assert(parts_behind(m)[0] == rhs);
            if infix_op(op) {
                lemma_extended(a, b, rhs);
                lemma_same_shape(op, a[lhs.index as int], b[lhs.index as int]);
                lemma_same_shape(op, a[rhs.index as int], b[rhs.index as int]);
            }
        },
        _ => {},
    }
}

/// A node changed in no way that matters.
proof fn lemma_changed(src: Seq<char>, nodes: Seq<Node>, id: NodeId, n: Node)
    requires
        ordered(src, nodes),
        id.index < nodes.len(),
        shape(n) == shape(nodes[id.index as int]),
    ensures
        ordered(src, changed(nodes, id, n)),
        extends(nodes, changed(nodes, id, n)),
        changed(nodes, id, n).len() == nodes.len(),
        changed(nodes, id, n)[id.index as int] == n,
{
    let after = changed(nodes, id, n);
    assert(extends(nodes, after)) by {
        reveal(extends);
    }
    assert(ordered(src, after)) by {
        reveal(ordered);
        assert forall|i: int| 0 <= i < after.len() implies #[trigger] in_order(src, after, i) by {
            assert(in_order(src, nodes, i));
            lemma_still_placed(src, nodes, after, nodes[i], after[i]);
        }
    }
}

/// A node more.
proof fn lemma_pushed(src: Seq<char>, nodes: Seq<Node>, n: Node)
    requires
        ordered(src, nodes),
        well_placed(src, nodes, n),
    ensures
        ordered(src, nodes.push(n)),
        extends(nodes, nodes.push(n)),
{
    let after = nodes.push(n);
    assert(extends(nodes, after)) by {
        reveal(extends);
    }
    assert(ordered(src, after)) by {
        reveal(ordered);
        assert forall|i: int| 0 <= i < after.len() implies #[trigger] in_order(src, after, i) by {
            if i < nodes.len() {
                assert(in_order(src, nodes, i));
                lemma_still_placed(src, nodes, after, nodes[i], after[i]);
            } else {
                lemma_still_placed(src, nodes, after, n, n);
            }
        }
    }
}

// ── States ───────────────────────────────────────────────────────────────────

/// Whether a state is one that parsing may be in.
spec fn ready(st: State) -> bool {
    &&& st.src.len() <= usize::MAX
    &&& st.token.pos <= st.at <= st.src.len()
    &&& st.token.typ != TokenType::EOF ==> st.token.pos < st.at
    &&& says_operator(st.src, st.token)
    &&& ordered(st.src, st.nodes)
}

/// Whether parsing goes from one state on to another.
spec fn goes(st: State, s: State) -> bool {
    &&& s.src == st.src
    &&& ready(s)
    &&& st.token.pos <= s.token.pos
    &&& extends(st.nodes, s.nodes)
}

proof fn lemma_goes(a: State, b: State, c: State)
    requires
        goes(a, b),
        goes(b, c),
    ensures
        goes(a, c),
{
    lemma_extends(a.nodes, b.nodes, c.nodes);
}

proof fn lemma_stays(st: State)
    requires
        ready(st),
    ensures
        goes(st, st),
{
    reveal(extends);
}

/// Whether a state has been reached from another by one token.
spec fn steps(st: State, s: State) -> bool {
    &&& goes(st, s)
    &&& s.nodes == st.nodes
    &&& st.token.typ != TokenType::EOF ==> st.token.pos < s.token.pos
}

proof fn lemma_next(st: State, infix: bool)
    requires
        ready(st),
    ensures
        next(st, infix) matches Ok(s1) ==> steps(st, s1),
{
    reveal(next);
    lemma_token(st.src, st.at, infix);
    lemma_stays(st);
}

proof fn lemma_steps(st: State)
    requires
        ready(st),
    ensures
        advanced(st) matches Ok(s1) ==> steps(st, s1),
        advanced_prefix(st) matches Ok(s1) ==> steps(st, s1),
        advanced_infix(st) matches Ok(s1) ==> steps(st, s1),
        forall|t: TokenType, i: bool| (#[trigger] taken(st, t, i)) matches Ok(s1) ==> steps(st, s1),
{
    lemma_next(st, st.infix);
    lemma_next(st, false);
    lemma_next(st, true);
}

// ── What is made ─────────────────────────────────────────────────────────────

/// The binding power of the tokens of a level.
spec fn strength(op: BinaryOp) -> int {
    let l = level(op);
    if l == 8 {
        75
    } else if l == 7 {
        60
    } else if l == 6 {
        50
    } else if l == 5 {
        45
    } else if l == 4 {
        40
    } else if l == 3 {
        30
    } else if l == 2 {
        25
    } else {
        20
    }
}

/// Tokens bind as tightly as the levels of their operators say.
proof fn lemma_strength(op: BinaryOp)
    requires
        infix_op(op),
    ensures
        power(token_of(op)) == strength(op),
{
}

/// How tightly a node holds together.
spec fn hold(n: Node) -> int {
    match n {
        Node::Binary { op, .. } => if infix_op(op) {
            strength(op)
        } else {
            1000
        },
        Node::Condition { .. } => 20,
        Node::Bind { .. } => 10,
        _ => 1000,
    }
}

/// How tightly a token may bind that comes after a node which is complete.
spec fn bound(n: Node) -> int {
    match n {
        Node::Binary { op, group, .. } => if !infix_op(op) || (op == BinaryOp::Dot && group is Some) {
            1000
        } else if groups_right(op) {
            strength(op) - 1
        } else {
            strength(op)
        },
        Node::Condition { .. } => 0,
        Node::Bind { .. } => 9,
        _ => 1000,
    }
}

/// Whether a node is one in one piece, that any token may follow.
spec fn solid(n: Node) -> bool {
    hold(n) == 1000 && bound(n) == 1000
}

/// Whether a node is there, behind a place and before the token at hand.
spec fn has(s: State, id: NodeId, lo: int) -> bool {
    &&& id.index < s.nodes.len()
    &&& lo <= pos_of(s.nodes[id.index as int]) < s.token.pos
}

spec fn the(s: State, id: NodeId) -> Node {
    s.nodes[id.index as int]
}

/// Whether what was parsed is a node, with parsing gone on.
spec fn makes(st: State, r: Parsed<NodeId>, lo: int) -> bool {
    match r {
        Ok((s, id)) => goes(st, s) && has(s, id, lo),
        Err(_) => true,
    }
}

spec fn makes_solid(st: State, r: Parsed<NodeId>) -> bool {
    match r {
        Ok((s, id)) => goes(st, s) && has(s, id, st.token.pos as int) && solid(the(s, id)),
        Err(_) => true,
    }
}

/// What is left at the end of an expression holds more tightly than what is
/// around it, and what comes then does not.
spec fn makes_expression(st: State, r: Parsed<NodeId>, lo: int, rbp: int) -> bool {
    match r {
        Ok((s, id)) => goes(st, s) && has(s, id, lo) && hold(the(s, id)) > rbp && power(s.token.typ) <= rbp,
        Err(_) => true,
    }
}

spec fn moves<T>(st: State, r: Parsed<T>) -> bool {
    match r {
        Ok((s, _)) => goes(st, s),
        Err(_) => true,
    }
}

/// Whether what was parsed are nodes one behind the other, with parsing gone on.
spec fn lines(st: State, r: Parsed<Seq<NodeId>>, lo: int) -> bool {
    match r {
        Ok((s, ids)) => goes(st, s) && in_line(s.nodes, ids, lo, s.token.pos as int),
        Err(_) => true,
    }
}

/// Nodes that go on standing in line.
proof fn lemma_line(a: State, b: State, ids: Seq<NodeId>, lo: int)
    requires
        goes(a, b),
        in_line(a.nodes, ids, lo, a.token.pos as int),
    ensures
        in_line(b.nodes, ids, lo, b.token.pos as int),
        in_line(b.nodes, ids, lo, usize::MAX + 1),
        in_line(b.nodes, ids, lo, a.token.pos as int),
{
    lemma_same_line(a.nodes, b.nodes, ids, lo, a.token.pos as int, b.token.pos as int);
    lemma_same_line(a.nodes, b.nodes, ids, lo, a.token.pos as int, usize::MAX + 1);
    lemma_same_line(a.nodes, b.nodes, ids, lo, a.token.pos as int, a.token.pos as int);
}

/// A node more in line.
proof fn lemma_line_grows(nodes: Seq<Node>, ids: Seq<NodeId>, id: NodeId, lo: int, mid: int, hi: int)
    requires
        in_line(nodes, ids, lo, mid),
        lo <= mid,
        id.index < nodes.len(),
        mid <= pos_of(nodes[id.index as int]) < hi,
    ensures
        in_line(nodes, ids.push(id), lo, hi),
{
    let all = ids.push(id);
    assert forall|k: int| 0 <= k < all.len() implies (#[trigger] all[k]).index < nodes.len() && lo <= pos_of(
        nodes[all[k].index as int],
    ) < hi by {
        if k < ids.len() {
            assert(all[k] == ids[k]);
        }
    }
    assert forall|k: int, m: int| 0 <= k < m < all.len() implies pos_of(nodes[(#[trigger] all[k]).index as int])
        < pos_of(nodes[(#[trigger] all[m]).index as int]) by {
        assert(all[k] == ids[k]);
        if m < ids.len() {
            assert(all[m] == ids[m]);
        }
    }
}

proof fn lemma_one_behind(nodes: Seq<Node>, a: NodeId, lo: int)
    requires
        a.index < nodes.len(),
        lo <= pos_of(nodes[a.index as int]),
    ensures
        in_line(nodes, seq![a], lo, usize::MAX + 1),
{
}

proof fn lemma_two_behind(nodes: Seq<Node>, a: NodeId, b: NodeId, lo: int)
    requires
        a.index < nodes.len(),
        b.index < nodes.len(),
        lo <= pos_of(nodes[a.index as int]) < pos_of(nodes[b.index as int]),
    ensures
        in_line(nodes, seq![a, b], lo, usize::MAX + 1),
{
}

proof fn lemma_three_behind(nodes: Seq<Node>, a: NodeId, b: NodeId, c: NodeId, lo: int)
    requires
        a.index < nodes.len(),
        b.index < nodes.len(),
        c.index < nodes.len(),
        lo <= pos_of(nodes[a.index as int]) < pos_of(nodes[b.index as int]) < pos_of(nodes[c.index as int]),
    ensures
        in_line(nodes, seq![a, b, c], lo, usize::MAX + 1),
{
}

/// What follows an operand makes a node that holds no less tightly than the
/// operand or the token, and that what comes then may follow.
spec fn makes_infix(st: State, left: NodeId, r: Parsed<NodeId>, lo: int) -> bool {
    match r {
        Ok((s, id)) => {
            &&& goes(st, s)
            &&& has(s, id, lo)
            &&& power(s.token.typ) <= bound(the(s, id))
            &&& hold(the(s, id)) >= hold(the(st, left)) || hold(the(s, id)) >= power(st.token.typ)
        },
        Err(_) => true,
    }
}

/// A node that is not an operator, made at a place.
proof fn lemma_grown(st: State, s: State, n: Node, lo: int)
    requires
        goes(st, s),
        well_placed(s.src, s.nodes, n),
        lo <= pos_of(n) < s.token.pos,
    ensures
        makes(st, grown(s, n), lo),
        grown(s, n) matches Ok((s2, id)) ==> the(s2, id) == n && s2.token == s.token && s2 == (State {
            nodes: s.nodes.push(n),
            ..s
        }),
{
    if s.nodes.len() < MAX_NODES {
        lemma_pushed(s.src, s.nodes, n);
        lemma_extends(st.nodes, s.nodes, s.nodes.push(n));
    }
}

proof fn lemma_symbol_here(st: State, op: BinaryOp)
    requires
        ready(st),
        infix_op(op),
        st.token.typ == token_of(op),
    ensures
        occurs_at(st.src, written(op), st.token.pos as int),
{
    reveal(says_operator);
}

proof fn lemma_leaf(st: State, n: Node)
    requires
        ready(st),
        st.token.typ != TokenType::EOF,
        solid(n),
        part_before(n) is None,
        parts_behind(n) == Seq::<NodeId>::empty(),
        pos_of(n) == st.token.pos,
        step_symbol(n) matches Some(symbol) ==> occurs_at(st.src, symbol, st.token.pos as int),
    ensures
        makes_solid(st, leaf(st, n)),
{
    lemma_steps(st);
    match advanced_infix(st) {
        Ok(s1) => {
            lemma_grown(st, s1, n, st.token.pos as int);
        },
        Err(_) => {},
    }
}

proof fn lemma_expression(st: State, rbp: int)
    requires
        ready(st),
        rbp < 1000,
    ensures
        makes_expression(st, expression(st, rbp), st.token.pos as int, rbp),
    decreases left_over(st), 4int,
{
    let s0 = State { depth: st.depth + 1, ..st };
    lemma_nud(s0);
    match nud(s0) {
        Ok((s1, left)) => {
            if eats(st, s1) {
                assert(solid(the(s1, left)));
                assert(power(s1.token.typ) <= 80);
                lemma_infixes(s1, left, rbp, st.token.pos as int);
                match infixes(s1, left, rbp) {
                    Ok((s2, id)) => {
                        lemma_goes(s0, s1, s2);
                    },
                    Err(_) => {},
                }
            }
        },
        Err(_) => {},
    }
}

proof fn lemma_infixes(st: State, left: NodeId, rbp: int, lo: int)
    requires
        ready(st),
        has(st, left, lo),
        hold(the(st, left)) > rbp,
        power(st.token.typ) <= bound(the(st, left)),
    ensures
        makes_expression(st, infixes(st, left, rbp), lo, rbp),
    decreases left_over(st), 4int,
{
    if power(st.token.typ) > rbp {
        lemma_led(st, left, lo);
        match led(st, left) {
            Ok((s1, id)) => {
                if eats(st, s1) {
                    lemma_infixes(s1, id, rbp, lo);
                    match infixes(s1, id, rbp) {
                        Ok((s2, last)) => {
                            lemma_goes(st, s1, s2);
                        },
                        Err(_) => {},
                    }
                }
            },
            Err(_) => {},
        }
    } else {
        lemma_stays(st);
    }
}

proof fn lemma_nud(st: State)
    requires
        ready(st),
    ensures
        makes_solid(st, nud(st)),
    decreases left_over(st), 3int,
{
    let tok = st.token;
    let name = name_node(tok.value, tok.pos);
    lemma_steps(st);
    match tok.typ {
        TokenType::Name => match advanced_infix(st) {
            Err(_) => {},
            Ok(s1) => {
                if (tok.value == "function"@ || tok.value == "λ"@) && s1.token.typ == TokenType::LParen {
                    if eats(st, s1) {
                        lemma_lambda(s1, tok.pos);
                        match lambda(s1, tok.pos) {
                            Ok((s2, id)) => {
                                lemma_goes(st, s1, s2);
                            },
                            Err(_) => {},
                        }
                    }
                } else {
                    lemma_grown(st, s1, name, tok.pos as int);
                }
            },
        },
        TokenType::And | TokenType::Or | TokenType::In => {
            lemma_leaf(st, name);
        },
        TokenType::Variable => {
            lemma_leaf(st, variable_node(tok.value, tok.pos));
        },
        TokenType::String => {
            lemma_leaf(st, Node::StringLit { value: tok.value, pos: tok.pos });
        },
        TokenType::Number => {
            lemma_leaf(st, Node::NumberLit { value: tok.num_val, raw: tok.value, pos: tok.pos });
        },
        TokenType::Value => {
            lemma_leaf(st, Node::ValueLit { value: tok.value, pos: tok.pos });
        },
        TokenType::Regex => {
            lemma_leaf(st, Node::Regex { pattern: tok.regex_pat, flags: tok.regex_flg, pos: tok.pos });
        },
        TokenType::Star => {
            lemma_symbol_here(st, BinaryOp::Mul);
            lemma_leaf(st, Node::Wildcard { keep_array: false, pos: tok.pos });
        },
        TokenType::StarStar => {
            lemma_symbol_here(st, BinaryOp::Pow);
            lemma_leaf(st, Node::Descendant { keep_array: false, pos: tok.pos });
        },
        TokenType::Percent => {
            lemma_symbol_here(st, BinaryOp::Mod);
            lemma_leaf(st, Node::Parent { pos: tok.pos, slot: None });
        },
        TokenType::Question => {
            lemma_leaf(st, Node::Placeholder { pos: tok.pos });
        },
        TokenType::Minus => {
            lemma_negation(st);
        },
        TokenType::LBracket => {
            lemma_array(st);
        },
        TokenType::LBrace => {
            lemma_object(st);
        },
        TokenType::LParen => {
            lemma_block(st);
        },
        TokenType::Pipe | TokenType::Tilde => {
            lemma_transform(st, tok.pos);
        },
        _ => {},
    }
}

proof fn lemma_negation(st: State)
    requires
        ready(st),
        st.token.typ != TokenType::EOF,
    ensures
        makes_solid(st, negation(st)),
    decreases left_over(st), 2int,
{
    lemma_steps(st);
    match advanced_prefix(st) {
        Err(_) => {},
        Ok(s1) => {
            if eats(st, s1) {
                lemma_expression(s1, 70);
                match expression(s1, 70) {
                    Err(_) => {},
                    Ok((s2, rhs)) => {
                        lemma_goes(st, s1, s2);
                        match node_at(s2.nodes, rhs) {
                            Some(Node::NumberLit { value, raw, pos }) => {
                                let n = Node::NumberLit { value: value.neg_spec(), raw: negated_literal(raw), pos };
                                lemma_changed(s2.src, s2.nodes, rhs, n);
                                lemma_extends(st.nodes, s2.nodes, changed(s2.nodes, rhs, n));
                            },
                            _ => {
                                let n = unary_node(UnaryOp::Negate, rhs, Seq::empty(), Seq::empty(), st.token.pos);
                                lemma_one_behind(s2.nodes, rhs, st.token.pos + 1);
                                lemma_grown(st, s2, n, st.token.pos as int);
                            },
                        }
                    },
                }
            }
        },
    }
}

proof fn lemma_array(st: State)
    requires
        ready(st),
        st.token.typ != TokenType::EOF,
    ensures
        makes_solid(st, array(st)),
    decreases left_over(st), 2int,
{
    lemma_steps(st);
    match advanced_prefix(st) {
        Err(_) => {},
        Ok(s1) => {
            if eats(st, s1) {
                lemma_array_items(s1, Seq::empty(), st.token.pos + 1);
                match array_items(s1, Seq::empty()) {
                    Err(_) => {},
                    Ok((s2, ids)) => {
                        lemma_goes(st, s1, s2);
                        lemma_steps(s2);
                        match advanced_infix(s2) {
                            Err(_) => {},
                            Ok(s3) => {
                                lemma_goes(st, s2, s3);
                                lemma_line(s2, s3, ids, st.token.pos + 1);
                                let n = unary_node(UnaryOp::ArrayCons, no_node(), ids, Seq::empty(), st.token.pos);
                                lemma_grown(st, s3, n, st.token.pos as int);
                            },
                        }
                    },
                }
            }
        },
    }
}

proof fn lemma_array_items(st: State, done: Seq<NodeId>, lo: int)
    requires
        ready(st),
        lo <= st.token.pos,
        in_line(st.nodes, done, lo, st.token.pos as int),
    ensures
        lines(st, array_items(st, done), lo),
    decreases left_over(st), 5int,
{
    lemma_stays(st);
    if st.token.typ != TokenType::RBracket && st.token.typ != TokenType::EOF {
        lemma_expression(st, 0);
        match expression(st, 0) {
            Err(_) => {},
            Ok((s1, id)) => {
                lemma_steps(s1);
                lemma_line(st, s1, done, lo);
                lemma_line_grows(s1.nodes, done, id, lo, st.token.pos as int, s1.token.pos as int);
                if s1.token.typ == TokenType::Comma {
                    match advanced_prefix(s1) {
                        Err(_) => {},
                        Ok(s2) => {
                            lemma_goes(st, s1, s2);
                            lemma_line(s1, s2, done.push(id), lo);
                            if eats(st, s2) {
                                lemma_array_items(s2, done.push(id), lo);
                                match array_items(s2, done.push(id)) {
                                    Ok((s3, _)) => {
                                        lemma_goes(st, s2, s3);
                                    },
                                    Err(_) => {},
                                }
                            }
                        },
                    }
                }
            },
        }
    }
}

proof fn lemma_object(st: State)
    requires
        ready(st),
        st.token.typ != TokenType::EOF,
    ensures
        makes_solid(st, object(st)),
    decreases left_over(st), 2int,
{
    lemma_steps(st);
    match advanced_prefix(st) {
        Err(_) => {},
        Ok(s1) => {
            if eats(st, s1) {
                lemma_object_pairs(s1, Seq::empty(), st.token.pos + 1);
                match object_pairs(s1, Seq::empty()) {
                    Err(_) => {},
                    Ok((s2, ids)) => {
                        lemma_goes(st, s1, s2);
                        lemma_stays(s2);
                        lemma_line(s2, s2, ids, st.token.pos + 1);
                        let n = unary_node(UnaryOp::ObjCons, no_node(), Seq::empty(), ids, st.token.pos);
                        lemma_grown(st, s2, n, st.token.pos as int);
                    },
                }
            }
        },
    }
}

proof fn lemma_object_pairs(st: State, done: Seq<NodeId>, lo: int)
    requires
        ready(st),
        lo <= st.token.pos,
        in_line(st.nodes, done, lo, st.token.pos as int),
    ensures
        lines(st, object_pairs(st, done), lo),
    decreases left_over(st), 5int,
{
    lemma_steps(st);
    match advanced_infix(st) {
        Ok(s1) => {
            lemma_line(st, s1, done, lo);
        },
        Err(_) => {},
    }
    if st.token.typ != TokenType::RBrace && st.token.typ != TokenType::EOF {
        lemma_expression(st, 0);
        match expression(st, 0) {
            Err(_) => {},
            Ok((s1, key)) => {
                lemma_steps(s1);
                let one = done.push(key);
                lemma_line(st, s1, done, lo);
                lemma_line_grows(s1.nodes, done, key, lo, st.token.pos as int, s1.token.pos as int);
                match taken(s1, TokenType::Colon, false) {
                    Err(_) => {},
                    Ok(s2) => {
                        lemma_goes(st, s1, s2);
                        lemma_line(s1, s2, one, lo);
                        if eats(st, s2) {
                            lemma_expression(s2, 0);
                            match expression(s2, 0) {
                                Err(_) => {},
                                Ok((s3, value)) => {
                                    lemma_goes(st, s2, s3);
                                    lemma_line(s2, s3, one, lo);
                                    lemma_line_grows(s3.nodes, one, value, lo, s2.token.pos as int, s3.token.pos as int);
                                    lemma_steps(s3);
                                    match if s3.token.typ == TokenType::Comma {
                                        advanced_prefix(s3)
                                    } else {
                                        Ok(s3)
                                    } {
                                        Err(_) => {},
                                        Ok(s4) => {
                                            lemma_stays(s3);
                                            lemma_goes(st, s3, s4);
                                            let all = one.push(value);
                                            lemma_line(s3, s4, all, lo);
                                            if eats(st, s4) {
                                                lemma_object_pairs(s4, all, lo);
                                                match object_pairs(s4, all) {
                                                    Ok((s5, _)) => {
                                                        lemma_goes(st, s4, s5);
                                                    },
                                                    Err(_) => {},
                                                }
                                            }
                                        },
                                    }
                                },
                            }
                        }
                    },
                }
            },
        }
    }
}

proof fn lemma_block(st: State)
    requires
        ready(st),
        st.token.typ != TokenType::EOF,
    ensures
        makes_solid(st, block(st)),
    decreases left_over(st), 2int,
{
    lemma_steps(st);
    match advanced_prefix(st) {
        Err(_) => {},
        Ok(s1) => {
            if eats(st, s1) {
                lemma_block_items(s1, Seq::empty(), st.token.pos + 1);
                match block_items(s1, Seq::empty()) {
                    Err(_) => {},
                    Ok((s2, ids)) => {
                        lemma_goes(st, s1, s2);
                        lemma_steps(s2);
                        match advanced_infix(s2) {
                            Err(_) => {},
                            Ok(s3) => {
                                lemma_goes(st, s2, s3);
                                lemma_line(s2, s3, ids, st.token.pos + 1);
                                let n = Node::Block {
                                    expressions: ids,
                                    focus: None,
                                    index: None,
                                    keep_array: false,
                                    pos: st.token.pos,
                                };
                                lemma_grown(st, s3, n, st.token.pos as int);
                            },
                        }
                    },
                }
            }
        },
    }
}

proof fn lemma_block_items(st: State, done: Seq<NodeId>, lo: int)
    requires
        ready(st),
        lo <= st.token.pos,
        in_line(st.nodes, done, lo, st.token.pos as int),
    ensures
        lines(st, block_items(st, done), lo),
    decreases left_over(st), 5int,
{
    lemma_stays(st);
    if st.token.typ != TokenType::RParen && st.token.typ != TokenType::EOF {
        lemma_expression(st, 0);
        match expression(st, 0) {
            Err(_) => {},
            Ok((s1, id)) => {
                lemma_steps(s1);
                lemma_line(st, s1, done, lo);
                lemma_line_grows(s1.nodes, done, id, lo, st.token.pos as int, s1.token.pos as int);
                if s1.token.typ == TokenType::Semicolon {
                    match advanced_prefix(s1) {
                        Err(_) => {},
                        Ok(s2) => {
                            lemma_goes(st, s1, s2);
                            lemma_line(s1, s2, done.push(id), lo);
                            if eats(st, s2) {
                                lemma_block_items(s2, done.push(id), lo);
                                match block_items(s2, done.push(id)) {
                                    Ok((s3, _)) => {
                                        lemma_goes(st, s2, s3);
                                    },
                                    Err(_) => {},
                                }
                            }
                        },
                    }
                }
            },
        }
    }
}

proof fn lemma_transform(st: State, pos: usize)
    requires
        ready(st),
        st.token.typ != TokenType::EOF,
        pos == st.token.pos,
    ensures
        makes_solid(st, transform(st, pos)),
    decreases left_over(st), 2int,
{
    lemma_steps(st);
    match advanced_prefix(st) {
        Err(_) => {},
        Ok(s1) => {
            if eats(st, s1) {
                lemma_expression(s1, 20);
                match expression(s1, 20) {
                    Err(_) => {},
                    Ok((s2, pattern)) => {
                        lemma_goes(st, s1, s2);
                        lemma_steps(s2);
                        match taken(s2, TokenType::Pipe, false) {
                            Err(_) => {},
                            Ok(s3) => {
                                lemma_goes(st, s2, s3);
                                lemma_one_in(s2, s3, pattern, st.token.pos + 1);
                                if eats(st, s3) {
                                    lemma_transform_update(st, s3, pattern, pos);
                                }
                            },
                        }
                    },
                }
            }
        },
    }
}

/// A node that goes on being there.
proof fn lemma_one_in(a: State, b: State, id: NodeId, lo: int)
    requires
        goes(a, b),
        has(a, id, lo),
    ensures
        has(b, id, lo),
        pos_of(the(b, id)) == pos_of(the(a, id)),
{
    lemma_extended(a.nodes, b.nodes, id);
}

proof fn lemma_transform_update(st: State, s3: State, pattern: NodeId, pos: usize)
    requires
        goes(st, s3),
        has(s3, pattern, st.token.pos + 1),
        st.token.pos < s3.token.pos,
        eats(st, s3),
        pos == st.token.pos,
    ensures
        match expression(s3, 20) {
            Err(_) => true,
            Ok((s4, update)) => if s4.token.typ == TokenType::Comma {
                match advanced_prefix(s4) {
                    Err(_) => true,
                    Ok(s5) => eats(st, s5) ==> match expression(s5, 20) {
                        Err(_) => true,
                        Ok((s6, delete)) => makes_solid(st, transform_end(s6, pattern, update, Some(delete), pos)),
                    },
                }
            } else {
                makes_solid(st, transform_end(s4, pattern, update, None, pos))
            },
        },
    decreases left_over(st), 1int,
{
    lemma_expression(s3, 20);
    match expression(s3, 20) {
        Err(_) => {},
        Ok((s4, update)) => {
            lemma_goes(st, s3, s4);
            lemma_one_in(s3, s4, pattern, st.token.pos + 1);
            if s4.token.typ == TokenType::Comma {
                lemma_steps(s4);
                match advanced_prefix(s4) {
                    Err(_) => {},
                    Ok(s5) => {
                        lemma_goes(st, s4, s5);
                        lemma_one_in(s4, s5, pattern, st.token.pos + 1);
                        lemma_one_in(s4, s5, update, st.token.pos + 1);
                        if eats(st, s5) {
                            lemma_expression(s5, 20);
                            match expression(s5, 20) {
                                Err(_) => {},
                                Ok((s6, delete)) => {
                                    lemma_goes(st, s5, s6);
                                    lemma_one_in(s5, s6, pattern, st.token.pos + 1);
                                    lemma_one_in(s5, s6, update, st.token.pos + 1);
                                    lemma_transform_end(st, s6, pattern, update, Some(delete), pos);
                                },
                            }
                        }
                    },
                }
            } else {
                lemma_transform_end(st, s4, pattern, update, None, pos);
            }
        },
    }
}

proof fn lemma_transform_end(
    st: State,
    s: State,
    pattern: NodeId,
    update: NodeId,
    delete: Option<NodeId>,
    pos: usize,
)
    requires
        goes(st, s),
        st.token.pos < s.token.pos,
        pos == st.token.pos,
        has(s, pattern, pos + 1),
        has(s, update, pos_of(the(s, pattern)) + 1),
        delete matches Some(d) ==> has(s, d, pos_of(the(s, update)) + 1),
    ensures
        makes_solid(st, transform_end(s, pattern, update, delete, pos)),
{
    lemma_steps(s);
    match taken(s, TokenType::Pipe, true) {
        Err(_) => {},
        Ok(s1) => {
            lemma_goes(st, s, s1);
            match delete {
                Some(d) => {
                    lemma_three_behind(s1.nodes, pattern, update, d, pos + 1);
                },
                None => {
                    lemma_two_behind(s1.nodes, pattern, update, pos + 1);
                },
            }
            lemma_grown(st, s1, Node::Transform { pattern, update, delete, pos }, pos as int);
        },
    }
}

// ── Functions ────────────────────────────────────────────────────────────────

proof fn lemma_lambda_params(st: State, done: Seq<NodeId>, lo: int)
    requires
        ready(st),
        lo <= st.token.pos,
        in_line(st.nodes, done, lo, st.token.pos as int),
    ensures
        lines(st, lambda_params(st, done), lo),
    decreases left_over(st),
{
    lemma_stays(st);
    if st.token.typ == TokenType::Variable {
        let n = variable_node(st.token.value, st.token.pos);
        match grown(st, n) {
            Err(_) => {},
            Ok((s1, id)) => {
                lemma_pushed(st.src, st.nodes, n);
                assert(goes(st, s1));
                lemma_line(st, s1, done, lo);
                lemma_steps(s1);
                match advanced(s1) {
                    Err(_) => {},
                    Ok(s2) => {
                        lemma_goes(st, s1, s2);
                        assert(the(s1, id) == n);
                        lemma_line_grows(s2.nodes, done, id, lo, st.token.pos as int, s2.token.pos as int);
                        lemma_steps(s2);
                        lemma_stays(s2);
                        match if s2.token.typ == TokenType::Comma {
                            advanced_prefix(s2)
                        } else {
                            Ok(s2)
                        } {
                            Err(_) => {},
                            Ok(s3) => {
                                lemma_goes(st, s2, s3);
                                lemma_line(s2, s3, done.push(id), lo);
                                if eats(st, s3) {
                                    lemma_lambda_params(s3, done.push(id), lo);
                                    match lambda_params(s3, done.push(id)) {
                                        Ok((s4, _)) => {
                                            lemma_goes(st, s3, s4);
                                        },
                                        Err(_) => {},
                                    }
                                }
                            },
                        }
                    },
                }
            },
        }
    }
}

proof fn lemma_signature_rest(st: State, depth: int, raw: Seq<char>)
    requires
        ready(st),
    ensures
        moves(st, signature_rest(st, depth, raw)),
    decreases left_over(st),
{
    lemma_stays(st);
    lemma_steps(st);
    if st.token.typ != TokenType::EOF {
        let d = if st.token.typ == TokenType::LT {
            depth + 1
        } else if st.token.typ == TokenType::GT {
            depth - 1
        } else {
            depth
        };
        let r = raw + st.token.value;
        match advanced(st) {
            Err(_) => {},
            Ok(s1) => {
                if d > 0 && eats(st, s1) {
                    lemma_signature_rest(s1, d, r);
                    match signature_rest(s1, d, r) {
                        Ok((s2, _)) => {
                            lemma_goes(st, s1, s2);
                        },
                        Err(_) => {},
                    }
                }
            },
        }
    }
}

proof fn lemma_optional_signature(st: State)
    requires
        ready(st),
    ensures
        moves(st, optional_signature(st)),
{
    lemma_stays(st);
    lemma_steps(st);
    match advanced(st) {
        Err(_) => {},
        Ok(s1) => {
            lemma_signature_rest(s1, 1, "<"@);
            match signature_rest(s1, 1, "<"@) {
                Err(_) => {},
                Ok((s2, raw)) => {
                    lemma_goes(st, s1, s2);
                    lemma_steps(s2);
                    match advanced(s2) {
                        Err(_) => {},
                        Ok(s3) => {
                            lemma_goes(st, s2, s3);
                        },
                    }
                },
            }
        },
    }
}

proof fn lemma_lambda_head(st: State)
    requires
        ready(st),
    ensures
        match lambda_head(st) {
            Ok((s, (params, _))) => goes(st, s) && in_line(s.nodes, params, st.token.pos as int, s.token.pos as int),
            Err(_) => true,
        },
{
    let lo = st.token.pos as int;
    lemma_steps(st);
    match taken(st, TokenType::LParen, false) {
        Err(_) => {},
        Ok(s1) => {
            lemma_lambda_params(s1, Seq::empty(), lo);
            match lambda_params(s1, Seq::empty()) {
                Err(_) => {},
                Ok((s2, params)) => {
                    lemma_goes(st, s1, s2);
                    lemma_steps(s2);
                    match taken(s2, TokenType::RParen, s2.infix) {
                        Err(_) => {},
                        Ok(s3) => {
                            lemma_goes(st, s2, s3);
                            lemma_line(s2, s3, params, lo);
                            lemma_optional_signature(s3);
                            match optional_signature(s3) {
                                Err(_) => {},
                                Ok((s4, sig)) => {
                                    lemma_goes(st, s3, s4);
                                    lemma_line(s3, s4, params, lo);
                                    lemma_steps(s4);
                                    match taken(s4, TokenType::LBrace, false) {
                                        Err(_) => {},
                                        Ok(s5) => {
                                            lemma_goes(st, s4, s5);
                                            lemma_line(s4, s5, params, lo);
                                        },
                                    }
                                },
                            }
                        },
                    }
                },
            }
        },
    }
}

proof fn lemma_lower(nodes: Seq<Node>, ids: Seq<NodeId>, lo: int, less: int)
    requires
        in_line(nodes, ids, lo, usize::MAX + 1),
        less <= lo,
    ensures
        in_line(nodes, ids, less, usize::MAX + 1),
{
}

/// A function stands where its name does, before its parameters.
proof fn lemma_lambda(st: State, pos: usize)
    requires
        ready(st),
        pos < st.token.pos,
    ensures
        match lambda(st, pos) {
            Ok((s, id)) => goes(st, s) && has(s, id, pos as int) && solid(the(s, id)),
            Err(_) => true,
        },
    decreases left_over(st), 2int,
{
    lemma_lambda_head(st);
    match lambda_head(st) {
        Err(_) => {},
        Ok((s1, head)) => {
            if eats(st, s1) {
                lemma_expression(s1, 0);
                match expression(s1, 0) {
                    Err(_) => {},
                    Ok((s2, body)) => {
                        lemma_goes(st, s1, s2);
                        let lo = st.token.pos as int;
                        lemma_line(s1, s2, head.0, lo);
                        lemma_line_grows(s2.nodes, head.0, body, lo, s1.token.pos as int, s2.token.pos as int);
                        lemma_steps(s2);
                        match taken(s2, TokenType::RBrace, true) {
                            Err(_) => {},
                            Ok(s3) => {
                                lemma_goes(st, s2, s3);
                                lemma_line(s2, s3, head.0.push(body), lo);
                                lemma_lower(s3.nodes, head.0.push(body), lo, pos + 1);
                                let n = Node::Lambda { params: head.0, body, signature: head.1, pos, thunk: false };
                                lemma_grown(st, s3, n, pos as int);
                            },
                        }
                    },
                }
            }
        },
    }
}

// ── Operators ────────────────────────────────────────────────────────────────

/// How tightly the right operand of an operator must hold together.
spec fn right_power(op: BinaryOp) -> int {
    if groups_right(op) {
        strength(op) - 1
    } else {
        strength(op)
    }
}

proof fn lemma_may_precede(op: BinaryOp, n: Node)
    requires
        infix_op(op),
        strength(op) <= bound(n),
    ensures
        may_precede(op, n),
{
}

proof fn lemma_may_follow(op: BinaryOp, n: Node)
    requires
        infix_op(op),
        hold(n) > right_power(op),
    ensures
        may_follow(op, n),
{
}

proof fn lemma_operator(st: State, left: NodeId, op: BinaryOp, lo: int, s1: State, s2: State, rhs: NodeId)
    requires
        ready(st),
        infix_op(op),
        st.token.typ == token_of(op),
        has(st, left, lo),
        power(st.token.typ) <= bound(the(st, left)),
        steps(st, s1),
        goes(s1, s2),
        has(s2, rhs, s1.token.pos as int),
        hold(the(s2, rhs)) > right_power(op),
        power(s2.token.typ) <= right_power(op),
    ensures
        makes_infix(st, left, grown(s2, binary_node(op, left, rhs, st.token.pos)), lo),
{
    let n = binary_node(op, left, rhs, st.token.pos);
    lemma_strength(op);
    lemma_goes(st, s1, s2);
    lemma_extended(st.nodes, s2.nodes, left);
    lemma_may_precede(op, the(st, left));
    lemma_same_shape(op, the(st, left), the(s2, left));
    lemma_may_follow(op, the(s2, rhs));
    assert(token_of(op) != TokenType::EOF);
    lemma_symbol_here(st, op);
    lemma_one_behind(s2.nodes, rhs, st.token.pos + 1);
    if s2.nodes.len() < MAX_NODES {
        lemma_pushed(s2.src, s2.nodes, n);
        lemma_extends(st.nodes, s2.nodes, s2.nodes.push(n));
    }
}

proof fn lemma_operation(st: State, left: NodeId, op: BinaryOp, lo: int)
    requires
        ready(st),
        infix_op(op),
        st.token.typ == token_of(op),
        has(st, left, lo),
        power(st.token.typ) <= bound(the(st, left)),
    ensures
        makes_infix(st, left, operation(st, left, op, right_power(op)), lo),
        makes_infix(st, left, full_operation(st, left, op, right_power(op)), lo),
    decreases left_over(st), 2int,
{
    lemma_steps(st);
    let rbp = right_power(op);
    match advanced_prefix(st) {
        Err(_) => {},
        Ok(s1) => {
            if eats(st, s1) {
                lemma_expression(s1, rbp);
                match expression(s1, rbp) {
                    Err(_) => {},
                    Ok((s2, rhs)) => {
                        lemma_operator(st, left, op, lo, s1, s2, rhs);
                    },
                }
            }
        },
    }
}

proof fn lemma_led(st: State, left: NodeId, lo: int)
    requires
        ready(st),
        has(st, left, lo),
        power(st.token.typ) <= bound(the(st, left)),
    ensures
        makes_infix(st, left, led(st, left), lo),
    decreases left_over(st), 3int,
{
    match st.token.typ {
        TokenType::Dot => {
            lemma_operation(st, left, BinaryOp::Dot, lo);
        },
        TokenType::LParen => {
            lemma_call(st, left, lo);
        },
        TokenType::LBracket => {
            lemma_subscript(st, left, lo);
        },
        TokenType::LBrace => {
            lemma_group_by(st, left, lo);
        },
        TokenType::At | TokenType::Hash => {
            lemma_bindings(st, left, lo);
        },
        TokenType::Question => {
            lemma_condition(st, left, lo);
        },
        TokenType::Assign => {
            lemma_binding(st, left, lo);
        },
        TokenType::Caret => {
            lemma_sort(st, left, lo);
        },
        TokenType::Chain => {
            lemma_operation(st, left, BinaryOp::Chain, lo);
        },
        TokenType::Elvis => {
            lemma_operation(st, left, BinaryOp::CondTern, lo);
        },
        TokenType::Coalesce => {
            lemma_operation(st, left, BinaryOp::NullCoal, lo);
        },
        TokenType::DotDot => {
            lemma_operation(st, left, BinaryOp::Range, lo);
        },
        TokenType::And => {
            lemma_operation(st, left, BinaryOp::And, lo);
        },
        TokenType::Or => {
            lemma_operation(st, left, BinaryOp::Or, lo);
        },
        TokenType::In => {
            lemma_operation(st, left, BinaryOp::In, lo);
        },
        TokenType::Pipe => {
            lemma_operation(st, left, BinaryOp::Pipe, lo);
        },
        TokenType::Equals => {
            lemma_operation(st, left, BinaryOp::Eq, lo);
        },
        TokenType::NE => {
            lemma_operation(st, left, BinaryOp::Ne, lo);
        },
        TokenType::LT => {
            lemma_operation(st, left, BinaryOp::Lt, lo);
        },
        TokenType::GT => {
            lemma_operation(st, left, BinaryOp::Gt, lo);
        },
        TokenType::LE => {
            lemma_operation(st, left, BinaryOp::Le, lo);
        },
        TokenType::GE => {
            lemma_operation(st, left, BinaryOp::Ge, lo);
        },
        TokenType::Plus => {
            lemma_operation(st, left, BinaryOp::Add, lo);
        },
        TokenType::Minus => {
            lemma_operation(st, left, BinaryOp::Sub, lo);
        },
        TokenType::Star => {
            lemma_operation(st, left, BinaryOp::Mul, lo);
        },
        TokenType::Slash => {
            lemma_operation(st, left, BinaryOp::Div, lo);
        },
        TokenType::Percent => {
            lemma_operation(st, left, BinaryOp::Mod, lo);
        },
        TokenType::StarStar => {
            lemma_operation(st, left, BinaryOp::Pow, lo);
        },
        TokenType::Amp => {
            lemma_operation(st, left, BinaryOp::Concat, lo);
        },
        _ => {},
    }
}

proof fn lemma_call(st: State, left: NodeId, lo: int)
    requires
        ready(st),
        st.token.typ == TokenType::LParen,
        has(st, left, lo),
    ensures
        makes_infix(st, left, call(st, left), lo),
    decreases left_over(st), 2int,
{
    lemma_steps(st);
    match advanced_prefix(st) {
        Err(_) => {},
        Ok(s1) => {
            if eats(st, s1) {
                lemma_call_args(s1, Seq::empty(), false, st.token.pos + 1);
                match call_args(s1, Seq::empty(), false) {
                    Err(_) => {},
                    Ok((s2, (ids, partial))) => {
                        lemma_goes(st, s1, s2);
                        lemma_steps(s2);
                        match advanced_infix(s2) {
                            Err(_) => {},
                            Ok(s3) => {
                                lemma_goes(st, s2, s3);
                                lemma_line(s2, s3, ids, st.token.pos + 1);
                                lemma_extended(st.nodes, s3.nodes, left);
                                lemma_power(s3.token.typ);
                                let n = if partial {
                                    Node::Partial { procedure: left, arguments: ids, pos: st.token.pos }
                                } else {
                                    Node::Function {
                                        procedure: left,
                                        arguments: ids,
                                        pos: st.token.pos,
                                        thunk: false,
                                        keep_array: false,
                                        group: None,
                                    }
                                };
                                lemma_grown(st, s3, n, lo);
                            },
                        }
                    },
                }
            }
        },
    }
}

proof fn lemma_call_args(st: State, done: Seq<NodeId>, partial: bool, lo: int)
    requires
        ready(st),
        lo <= st.token.pos,
        in_line(st.nodes, done, lo, st.token.pos as int),
    ensures
        match call_args(st, done, partial) {
            Ok((s, (ids, _))) => goes(st, s) && in_line(s.nodes, ids, lo, s.token.pos as int),
            Err(_) => true,
        },
    decreases left_over(st), 5int,
{
    lemma_stays(st);
    if st.token.typ != TokenType::RParen && st.token.typ != TokenType::EOF {
        lemma_expression(st, 0);
        match expression(st, 0) {
            Err(_) => {},
            Ok((s1, id)) => {
                let p = partial || node_at(s1.nodes, id) matches Some(Node::Placeholder { .. });
                lemma_steps(s1);
                lemma_line(st, s1, done, lo);
                lemma_line_grows(s1.nodes, done, id, lo, st.token.pos as int, s1.token.pos as int);
                if s1.token.typ == TokenType::Comma {
                    match advanced_prefix(s1) {
                        Err(_) => {},
                        Ok(s2) => {
                            lemma_goes(st, s1, s2);
                            lemma_line(s1, s2, done.push(id), lo);
                            if eats(st, s2) {
                                lemma_call_args(s2, done.push(id), p, lo);
                                match call_args(s2, done.push(id), p) {
                                    Ok((s3, _)) => {
                                        lemma_goes(st, s2, s3);
                                    },
                                    Err(_) => {},
                                }
                            }
                        },
                    }
                }
            },
        }
    }
}

/// A node changed in no way that matters, after what follows it.
proof fn lemma_placed(st: State, s: State, left: NodeId, n: Node, lo: int)
    requires
        goes(st, s),
        has(st, left, lo),
        shape(n) == shape(the(s, left)),
        bound(n) == 1000,
    ensures
        makes_infix(st, left, Ok((State { nodes: changed(s.nodes, left, n), ..s }, left)), lo),
{
    lemma_extended(st.nodes, s.nodes, left);
    lemma_changed(s.src, s.nodes, left, n);
    lemma_extends(st.nodes, s.nodes, changed(s.nodes, left, n));
    lemma_power(s.token.typ);
    assert(hold(n) == hold(the(st, left)));
}

proof fn lemma_power(t: TokenType)
    ensures
        0 <= power(t) <= 80,
{
}

proof fn lemma_subscript(st: State, left: NodeId, lo: int)
    requires
        ready(st),
        st.token.typ == TokenType::LBracket,
        has(st, left, lo),
        power(st.token.typ) <= bound(the(st, left)),
    ensures
        makes_infix(st, left, subscript(st, left), lo),
    decreases left_over(st), 2int,
{
    lemma_steps(st);
    match advanced_prefix(st) {
        Err(_) => {},
        Ok(s1) => {
            if s1.token.typ == TokenType::RBracket {
                lemma_steps(s1);
                match advanced_infix(s1) {
                    Err(_) => {},
                    Ok(s2) => {
                        lemma_goes(st, s1, s2);
                        assert(s2.nodes == st.nodes);
                        lemma_placed(st, s2, left, with_keep_array(the(s2, left)), lo);
                    },
                }
            } else if eats(st, s1) {
                lemma_expression(s1, 0);
                match expression(s1, 0) {
                    Err(_) => {},
                    Ok((s2, rhs)) => {
                        lemma_goes(st, s1, s2);
                        lemma_steps(s2);
                        match taken(s2, TokenType::RBracket, true) {
                            Err(_) => {},
                            Ok(s3) => {
                                lemma_goes(st, s2, s3);
                                lemma_power(s3.token.typ);
                                lemma_extended(st.nodes, s3.nodes, left);
                                lemma_one_behind(s3.nodes, rhs, st.token.pos + 1);
                                lemma_grown(st, s3, binary_node(BinaryOp::Subscript, left, rhs, st.token.pos), lo);
                            },
                        }
                    },
                }
            }
        },
    }
}

proof fn lemma_group_by(st: State, left: NodeId, lo: int)
    requires
        ready(st),
        st.token.typ == TokenType::LBrace,
        has(st, left, lo),
        power(st.token.typ) <= bound(the(st, left)),
    ensures
        makes_infix(st, left, group_by(st, left), lo),
    decreases left_over(st), 2int,
{
    lemma_steps(st);
    match advanced_prefix(st) {
        Err(_) => {},
        Ok(s1) => {
            if eats(st, s1) {
                lemma_object_pairs(s1, Seq::empty(), st.token.pos + 1);
                match object_pairs(s1, Seq::empty()) {
                    Err(_) => {},
                    Ok((s2, ids)) => {
                        lemma_goes(st, s1, s2);
                        let s3 = State { infix: true, ..s2 };
                        assert(goes(st, s3));
                        let g = Group { pairs: paired(ids), pos: st.token.pos };
                        lemma_extended(st.nodes, s3.nodes, left);
                        lemma_power(s3.token.typ);
                        match with_group(the(s3, left), g) {
                            Some(n) => {
                                assert(shape(n) == shape(the(s3, left)));
                                assert(bound(n) == 1000);
                                lemma_placed(st, s3, left, n, lo);
                            },
                            None => {
                                lemma_grown(st, s3, Node::Grouped { expr: left, group: g, pos: g.pos }, lo);
                            },
                        }
                    },
                }
            }
        },
    }
}

proof fn lemma_bindings(st: State, left: NodeId, lo: int)
    requires
        ready(st),
        st.token.typ == TokenType::At || st.token.typ == TokenType::Hash,
        has(st, left, lo),
        power(st.token.typ) <= bound(the(st, left)),
    ensures
        makes_infix(st, left, focus(st, left), lo),
        makes_infix(st, left, index(st, left), lo),
{
    lemma_steps(st);
    match advanced(st) {
        Err(_) => {},
        Ok(s1) => {
            lemma_steps(s1);
            match advanced_infix(s1) {
                Err(_) => {},
                Ok(s2) => {
                    lemma_goes(st, s1, s2);
                    assert(s2.nodes == st.nodes);
                    let v = s1.token.value;
                    lemma_placed(st, s2, left, with_focus(the(s2, left), v), lo);
                    lemma_placed(st, s2, left, with_index(the(s2, left), v), lo);
                },
            }
        },
    }
}

proof fn lemma_condition(st: State, left: NodeId, lo: int)
    requires
        ready(st),
        st.token.typ == TokenType::Question,
        has(st, left, lo),
    ensures
        makes_infix(st, left, condition(st, left), lo),
    decreases left_over(st), 2int,
{
    lemma_steps(st);
    match advanced_prefix(st) {
        Err(_) => {},
        Ok(s1) => {
            if eats(st, s1) {
                lemma_expression(s1, 0);
                match expression(s1, 0) {
                    Err(_) => {},
                    Ok((s2, then_)) => {
                        lemma_goes(st, s1, s2);
                        lemma_extended(st.nodes, s2.nodes, left);
                        if s2.token.typ == TokenType::Colon {
                            lemma_steps(s2);
                            match advanced_prefix(s2) {
                                Err(_) => {},
                                Ok(s3) => {
                                    lemma_goes(st, s2, s3);
                                    lemma_one_in(s2, s3, then_, st.token.pos + 1);
                                    if eats(st, s3) {
                                        lemma_expression(s3, 0);
                                        match expression(s3, 0) {
                                            Err(_) => {},
                                            Ok((s4, other)) => {
                                                lemma_goes(st, s3, s4);
                                                lemma_extended(st.nodes, s4.nodes, left);
                                                lemma_one_in(s3, s4, then_, st.token.pos + 1);
                                                lemma_two_behind(s4.nodes, then_, other, st.token.pos + 1);
                                                let n = Node::Condition {
                                                    condition: left,
                                                    then_,
                                                    else_: Some(other),
                                                    pos: st.token.pos,
                                                };
                                                lemma_grown(st, s4, n, lo);
                                            },
                                        }
                                    }
                                },
                            }
                        } else {
                            let n = Node::Condition { condition: left, then_, else_: None, pos: st.token.pos };
                            lemma_one_behind(s2.nodes, then_, st.token.pos + 1);
                            lemma_grown(st, s2, n, lo);
                        }
                    },
                }
            }
        },
    }
}

proof fn lemma_binding(st: State, left: NodeId, lo: int)
    requires
        ready(st),
        st.token.typ == TokenType::Assign,
        has(st, left, lo),
    ensures
        makes_infix(st, left, binding(st, left), lo),
    decreases left_over(st), 2int,
{
    lemma_steps(st);
    match advanced_prefix(st) {
        Err(_) => {},
        Ok(s1) => {
            if eats(st, s1) {
                lemma_expression(s1, 9);
                match expression(s1, 9) {
                    Err(_) => {},
                    Ok((s2, rhs)) => {
                        lemma_goes(st, s1, s2);
                        lemma_extended(st.nodes, s2.nodes, left);
                        lemma_one_behind(s2.nodes, rhs, st.token.pos + 1);
                        lemma_grown(st, s2, Node::Bind { lhs: left, rhs, pos: st.token.pos }, lo);
                    },
                }
            }
        },
    }
}

proof fn lemma_sort(st: State, left: NodeId, lo: int)
    requires
        ready(st),
        st.token.typ == TokenType::Caret,
        has(st, left, lo),
    ensures
        makes_infix(st, left, sort(st, left), lo),
    decreases left_over(st), 2int,
{
    lemma_steps(st);
    match advanced(st) {
        Err(_) => {},
        Ok(s1) => {
            lemma_steps(s1);
            match taken(s1, TokenType::LParen, false) {
                Err(_) => {},
                Ok(s2) => {
                    lemma_goes(st, s1, s2);
                    if eats(st, s2) {
                        assert(term_ids(Seq::empty()) =~= Seq::<NodeId>::empty());
                        lemma_sort_terms(s2, Seq::empty(), st.token.pos + 1);
                        match sort_terms(s2, Seq::empty()) {
                            Err(_) => {},
                            Ok((s3, terms)) => {
                                lemma_goes(st, s2, s3);
                                lemma_steps(s3);
                                match advanced_infix(s3) {
                                    Err(_) => {},
                                    Ok(s4) => {
                                        lemma_goes(st, s3, s4);
                                        lemma_power(s4.token.typ);
                                        lemma_line(s3, s4, term_ids(terms), st.token.pos + 1);
                                        lemma_extended(st.nodes, s4.nodes, left);
                                        let n = Node::Sort {
                                            expr: left,
                                            terms,
                                            keep_array: false,
                                            index: None,
                                            focus: None,
                                            pos: st.token.pos,
                                        };
                                        lemma_grown(st, s4, n, lo);
                                    },
                                }
                            },
                        }
                    }
                },
            }
        },
    }
}

proof fn lemma_sort_terms(st: State, done: Seq<SortTerm>, lo: int)
    requires
        ready(st),
        lo <= st.token.pos,
        in_line(st.nodes, term_ids(done), lo, st.token.pos as int),
    ensures
        match sort_terms(st, done) {
            Ok((s, terms)) => goes(st, s) && in_line(s.nodes, term_ids(terms), lo, s.token.pos as int),
            Err(_) => true,
        },
    decreases left_over(st), 5int,
{
    lemma_stays(st);
    lemma_steps(st);
    if st.token.typ != TokenType::RParen && st.token.typ != TokenType::EOF {
        let marked = st.token.typ == TokenType::GT || st.token.typ == TokenType::LT;
        match if marked {
            advanced_prefix(st)
        } else {
            Ok(st)
        } {
            Err(_) => {},
            Ok(s1) => {
                if !marked || eats(st, s1) {
                    lemma_expression(s1, 0);
                    match expression(s1, 0) {
                        Err(_) => {},
                        Ok((s2, id)) => {
                            lemma_goes(st, s1, s2);
                            let all = done.push(
                                SortTerm { descending: st.token.typ == TokenType::GT, expression: id },
                            );
                            lemma_line(st, s2, term_ids(done), lo);
                            lemma_line_grows(s2.nodes, term_ids(done), id, lo, st.token.pos as int, s2.token.pos as int);
                            assert(term_ids(all) =~= term_ids(done).push(id));
                            lemma_stays(s2);
                            lemma_steps(s2);
                            match if s2.token.typ == TokenType::Comma {
                                advanced_prefix(s2)
                            } else {
                                Ok(s2)
                            } {
                                Err(_) => {},
                                Ok(s3) => {
                                    lemma_goes(st, s2, s3);
                                    lemma_line(s2, s3, term_ids(all), lo);
                                    if eats(st, s3) {
                                        lemma_sort_terms(s3, all, lo);
                                        match sort_terms(s3, all) {
                                            Ok((s4, _)) => {
                                                lemma_goes(st, s3, s4);
                                            },
                                            Err(_) => {},
                                        }
                                    }
                                },
                            }
                        },
                    }
                }
            },
        }
    }
}

// ── Laws ─────────────────────────────────────────────────────────────────────

/// In the tree of a source text every node stands behind what it follows and
/// before what follows it, and its parts one behind the other. An operator between
/// two operands stands where it is written. Of two operators that share an operand the one of the higher level has
/// it; of two of one level the first, or for paths, chains, choices and ranges the
/// second.
pub proof fn law_precedence(src: Seq<char>, reads: Readings, i: int)
    requires
        src.len() <= usize::MAX,
        parsed(src, reads) matches Ok((nodes, _)) && 0 <= i < nodes.len(),
    ensures
        parsed(src, reads) matches Ok((nodes, _)) && in_order(src, nodes, i),
{
    let st = State {
        src,
        at: 0,
        token: plain(TokenType::EOF, Seq::empty(), 0),
        infix: false,
        nodes: Seq::empty(),
        depth: 0,
        reads,
    };
    reveal(ordered);
    assert(says_operator(src, st.token)) by {
        reveal(says_operator);
    }
    lemma_steps(st);
    match advanced(st) {
        Err(_) => {},
        Ok(s1) => {
            if s1.token.typ != TokenType::EOF {
                lemma_expression(s1, 0);
            }
        },
    }
}

/// A term of an order-by that begins with `>` is descending, and no other is.
pub proof fn law_sort_direction(st: State, done: Seq<SortTerm>)
    requires
        st.token.typ != TokenType::RParen,
    ensures
        sort_terms(st, done) matches Ok((_, terms)) ==> {
            &&& terms.len() > done.len()
            &&& terms.take(done.len() as int) == done
            &&& terms[done.len() as int].descending <==> st.token.typ == TokenType::GT
        },
    decreases left_over(st),
{
    if st.token.typ != TokenType::EOF {
        let marked = st.token.typ == TokenType::GT || st.token.typ == TokenType::LT;
        match if marked {
            advanced_prefix(st)
        } else {
            Ok(st)
        } {
            Err(_) => {},
            Ok(s1) => match expression(s1, 0) {
                Err(_) => {},
                Ok((s2, id)) => match if s2.token.typ == TokenType::Comma {
                    advanced_prefix(s2)
                } else {
                    Ok(s2)
                } {
                    Err(_) => {},
                    Ok(s3) => {
                        let all = done.push(
                            SortTerm { descending: st.token.typ == TokenType::GT, expression: id },
                        );
                        assert(all.take(done.len() as int) =~= done);
                        if eats(st, s3) && s3.token.typ != TokenType::RParen {
                            law_sort_direction(s3, all);
                            match sort_terms(s3, all) {
                                Ok((_, terms)) => {
                                    assert(terms.take(done.len() as int) =~= terms.take(all.len() as int).take(
                                        done.len() as int,
                                    ));
                                    assert(terms[done.len() as int] == terms.take(all.len() as int)[done.len() as int]);
                                },
                                Err(_) => {},
                            }
                        }
                    },
                },
            },
        }
    }
}

} // verus!
