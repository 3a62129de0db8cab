//! Preparation of a syntax tree for evaluation.
//!
//! Chains of dots become paths, marks on steps move to their path, calls in
//! tail position are marked, and properties of nodes are computed once.
use vstd::prelude::*;

use super::ast::{
    allocated, children, copy_group, copy_ids, flags_at, group_of_option, node_at, node_pos, push_children, AstArena,
    BinaryOp, Expr, Group, GroupExpr, Node, NodeId, SortTerm, COMPUTED, GROUP_BINDINGS, INDEX_BINDING, PARENT_REF,
};
use super::{changed, name_node};
use crate::error::{bare_fault, fault, JsonataError};
use crate::text::{chars_of, is_text};

verus! {

/// What processing gives: the nodes afterwards and a result, or the code of an
/// error.
pub type Processed<T> = Result<(Seq<Node>, T), Seq<char>>;

// ── Marks of steps ───────────────────────────────────────────────────────────

/// Whether a node carries the mark that `[]` leaves.
pub open spec fn keeps_array(n: Node) -> bool {
    match n {
        Node::Name { keep_array, .. } => keep_array,
        Node::Binary { keep_array, .. } => keep_array,
        Node::Variable { keep_array, .. } => keep_array,
        Node::Function { keep_array, .. } => keep_array,
        Node::Sort { keep_array, .. } => keep_array,
        Node::Block { keep_array, .. } => keep_array,
        Node::Unary { keep_array, .. } => keep_array,
        Node::Wildcard { keep_array, .. } => keep_array,
        Node::Descendant { keep_array, .. } => keep_array,
        _ => false,
    }
}

fn has_keep_array(e: &Expr) -> (r: bool)
    ensures
        r == keeps_array(e@),
{
    match e {
        Expr::Name { keep_array, .. } => *keep_array,
        Expr::Binary { keep_array, .. } => *keep_array,
        Expr::Variable { keep_array, .. } => *keep_array,
        Expr::Function { keep_array, .. } => *keep_array,
        Expr::Sort { keep_array, .. } => *keep_array,
        Expr::Block { keep_array, .. } => *keep_array,
        Expr::Unary { keep_array, .. } => *keep_array,
        Expr::Wildcard { keep_array, .. } => *keep_array,
        Expr::Descendant { keep_array, .. } => *keep_array,
        _ => false,
    }
}

/// Whether a step, or one of at most `most` nodes on the left of it, carries
/// the mark that `[]` leaves.
pub open spec fn step_keeps(nodes: Seq<Node>, id: NodeId, most: nat) -> bool
    decreases most,
{
    if most == 0 {
        false
    } else {
        match node_at(nodes, id) {
            None => false,
            Some(n) => if keeps_array(n) {
                true
            } else {
                match n {
                    Node::Binary { lhs, .. } => step_keeps(nodes, lhs, (most - 1) as nat),
                    Node::Sort { expr, .. } => step_keeps(nodes, expr, (most - 1) as nat),
                    Node::Path { keep_singleton_array, .. } => keep_singleton_array,
                    _ => false,
                }
            },
        }
    }
}

fn step_has_keep_array(arena: &AstArena, step: NodeId) -> (r: bool)
    ensures
        r == step_keeps(arena.all(), step, arena.all().len()),
{
    let mut current: NodeId = step;
    let mut most: usize = arena.len();
    while most > 0
        invariant
            step_keeps(arena.all(), step, arena.all().len()) == step_keeps(arena.all(), current, most as nat),
        decreases most,
    {
        match arena.try_get(current) {
            None => {
                return false;
            },
            Some(e) => {
                if has_keep_array(e) {
                    return true;
                }
                match e {
                    Expr::Binary { lhs, .. } => {
                        current = *lhs;
                    },
                    Expr::Sort { expr, .. } => {
                        current = *expr;
                    },
                    Expr::Path { keep_singleton_array, .. } => {
                        return *keep_singleton_array;
                    },
                    _ => {
                        return false;
                    },
                }
            },
        }
        most = most - 1;
    }
    false
}

/// Whether any of the steps from `k` on carries the mark.
pub open spec fn any_keeps(nodes: Seq<Node>, steps: Seq<NodeId>, k: int) -> bool
    decreases steps.len() - k,
{
    if k < 0 || k >= steps.len() {
        false
    } else {
        step_keeps(nodes, steps[k], nodes.len()) || any_keeps(nodes, steps, k + 1)
    }
}

fn any_step_keeps(arena: &AstArena, steps: &Vec<NodeId>) -> (r: bool)
    ensures
        r == any_keeps(arena.all(), steps@, 0),
{
    let mut k: usize = 0;
    while k < steps.len()
        invariant
            k <= steps.len(),
            any_keeps(arena.all(), steps@, 0) == any_keeps(arena.all(), steps@, k as int),
        decreases steps.len() - k,
    {
        if step_has_keep_array(arena, steps[k]) {
            return true;
        }
        k = k + 1;
    }
    false
}

/// The path of one step that a marked or bound step becomes, if it does.
pub open spec fn lone_path(n: Node, id: NodeId) -> Option<Node> {
    match n {
        Node::Name { keep_array, group, focus, index, pos, .. } => if focus is Some || index is Some || (keep_array
            && group is None) {
            Some(Node::Path { steps: seq![id], keep_singleton_array: keep_array, group: None, pos })
        } else {
            None
        },
        Node::Wildcard { keep_array, pos } => if keep_array {
            Some(Node::Path { steps: seq![id], keep_singleton_array: true, group: None, pos })
        } else {
            None
        },
        Node::Sort { keep_array, pos, .. } => if keep_array {
            Some(Node::Path { steps: seq![id], keep_singleton_array: true, group: None, pos })
        } else {
            None
        },
        _ => None,
    }
}

/// A step, put in a path of its own where it must be.
pub open spec fn wrapped(nodes: Seq<Node>, id: NodeId) -> Processed<NodeId> {
    match node_at(nodes, id) {
        None => Ok((nodes, id)),
        Some(n) => match lone_path(n, id) {
            None => Ok((nodes, id)),
            Some(p) => allocated(nodes, p),
        },
    }
}

/// Whether a result and the arena after it are what is expected.
pub open spec fn is_done(before: AstArena, after: AstArena, r: Result<NodeId, JsonataError>, want: Processed<NodeId>) -> bool {
    &&& after.flags == before.flags
    &&& match r {
        Ok(id) => want == Ok::<(Seq<Node>, NodeId), Seq<char>>((after.all(), id)),
        Err(e) => want == Err::<(Seq<Node>, NodeId), Seq<char>>(e.code@) && fault(e) == bare_fault(e.code@),
    }
}

fn wrap_decorated_step(arena: &mut AstArena, node: NodeId) -> (r: Result<NodeId, JsonataError>)
    ensures
        is_done(*old(arena), *final(arena), r, wrapped(old(arena).all(), node)),
{
    let (keep, pos) = match arena.try_get(node) {
        Some(Expr::Name { keep_array, group, focus, index, pos, .. }) => {
            if !(focus.is_some() || index.is_some() || (*keep_array && group.is_none())) {
                return Ok(node);
            }
            (*keep_array, *pos)
        },
        Some(Expr::Wildcard { keep_array, pos }) => {
            if !*keep_array {
                return Ok(node);
            }
            (true, *pos)
        },
        Some(Expr::Sort { keep_array, pos, .. }) => {
            if !*keep_array {
                return Ok(node);
            }
            (true, *pos)
        },
        _ => {
            return Ok(node);
        },
    };
    let mut steps: Vec<NodeId> = Vec::new();
    steps.push(node);
    assert(steps@ =~= seq![node]);
    arena.add_node(Expr::Path { steps, keep_singleton_array: keep, group: None, pos })
}

// ── Parts of a node replaced ─────────────────────────────────────────────────

/// The group-by of a node.
pub open spec fn group_in(n: Node) -> Option<Group> {
    match n {
        Node::Name { group, .. } => group,
        Node::Variable { group, .. } => group,
        Node::Path { group, .. } => group,
        Node::Function { group, .. } => group,
        Node::Binary { group, .. } => group,
        Node::Unary { group, .. } => group,
        Node::Grouped { group, .. } => Some(group),
        _ => None,
    }
}

fn group_inside(e: &Expr) -> (r: Option<GroupExpr>)
    ensures
        group_of_option(r) == group_in(e@),
{
    match e {
        Expr::Name { group, .. } => copy_group(group),
        Expr::Variable { group, .. } => copy_group(group),
        Expr::Path { group, .. } => copy_group(group),
        Expr::Function { group, .. } => copy_group(group),
        Expr::Binary { group, .. } => copy_group(group),
        Expr::Unary { group, .. } => copy_group(group),
        Expr::Grouped { group, .. } => Some(group.clone()),
        _ => None,
    }
}

/// A node with another group-by, where it has a place for one.
pub open spec fn regrouped(n: Node, g: Group) -> Node {
    match n {
        Node::Name { value, pos, keep_array, stages, focus, index, .. } => Node::Name { value, pos, keep_array, stages, group: Some(g), focus, index },
        Node::Variable { name, keep_array, focus, index, pos, .. } => Node::Variable { name, group: Some(g), keep_array, focus, index, pos },
        Node::Path { steps, keep_singleton_array, pos, .. } => Node::Path { steps, keep_singleton_array, group: Some(g), pos },
        Node::Function { procedure, arguments, pos, thunk, keep_array, .. } => Node::Function { procedure, arguments, pos, thunk, keep_array, group: Some(g) },
        Node::Binary { op, lhs, rhs, keep_array, focus, index, pos, .. } => Node::Binary { op, lhs, rhs, group: Some(g), keep_array, focus, index, pos },
        Node::Unary { op, operand, expressions, lhs, keep_array, pos, .. } => Node::Unary { op, operand, expressions, lhs, group: Some(g), keep_array, pos },
        Node::Grouped { expr, pos, .. } => Node::Grouped { expr, group: g, pos },
        other => other,
    }
}

fn regroup(e: Expr, g: GroupExpr) -> (r: Expr)
    ensures
        r@ == regrouped(e@, g@),
{
    match e {
        Expr::Name { value, pos, keep_array, stages, group: _, focus, index } => Expr::Name { value, pos, keep_array, stages, group: Some(g), focus, index },
        Expr::Variable { name, group: _, keep_array, focus, index, pos } => Expr::Variable { name, group: Some(g), keep_array, focus, index, pos },
        Expr::Path { steps, keep_singleton_array, group: _, pos } => Expr::Path { steps, keep_singleton_array, group: Some(g), pos },
        Expr::Function { procedure, arguments, pos, thunk, keep_array, group: _ } => Expr::Function { procedure, arguments, pos, thunk, keep_array, group: Some(g) },
        Expr::Binary { op, lhs, rhs, group: _, keep_array, focus, index, pos } => Expr::Binary { op, lhs, rhs, group: Some(g), keep_array, focus, index, pos },
        Expr::Unary { op, operand, expressions, lhs, group: _, keep_array, pos } => Expr::Unary { op, operand, expressions, lhs, group: Some(g), keep_array, pos },
        Expr::Grouped { expr, group: _, pos } => Expr::Grouped { expr, group: g, pos },
        other => other,
    }
}

/// A binary operation or a binding with other operands.
pub open spec fn with_sides(n: Node, l: NodeId, r: NodeId) -> Node {
    match n {
        Node::Binary { op, group, keep_array, focus, index, pos, .. } => Node::Binary { op, lhs: l, rhs: r, group, keep_array, focus, index, pos },
        Node::Bind { pos, .. } => Node::Bind { lhs: l, rhs: r, pos },
        other => other,
    }
}

fn set_sides(e: Expr, l: NodeId, r: NodeId) -> (x: Expr)
    ensures
        x@ == with_sides(e@, l, r),
{
    match e {
        Expr::Binary { op, lhs: _, rhs: _, group, keep_array, focus, index, pos } => Expr::Binary { op, lhs: l, rhs: r, group, keep_array, focus, index, pos },
        Expr::Bind { lhs: _, rhs: _, pos } => Expr::Bind { lhs: l, rhs: r, pos },
        other => other,
    }
}

/// A unary operation with other operands.
pub open spec fn with_parts(n: Node, o: NodeId, es: Seq<NodeId>, l: Seq<NodeId>) -> Node {
    match n {
        Node::Unary { op, group, keep_array, pos, .. } => Node::Unary { op, operand: o, expressions: es, lhs: l, group, keep_array, pos },
        other => other,
    }
}

fn set_parts(e: Expr, o: NodeId, es: Vec<NodeId>, l: Vec<NodeId>) -> (r: Expr)
    ensures
        r@ == with_parts(e@, o, es@, l@),
{
    match e {
        Expr::Unary { op, operand: _, expressions: _, lhs: _, group, keep_array, pos } => Expr::Unary { op, operand: o, expressions: es, lhs: l, group, keep_array, pos },
        other => other,
    }
}

/// A block with other expressions.
pub open spec fn with_expressions(n: Node, es: Seq<NodeId>) -> Node {
    match n {
        Node::Block { focus, index, keep_array, pos, .. } => Node::Block { expressions: es, focus, index, keep_array, pos },
        other => other,
    }
}

fn set_expressions(e: Expr, es: Vec<NodeId>) -> (r: Expr)
    ensures
        r@ == with_expressions(e@, es@),
{
    match e {
        Expr::Block { expressions: _, focus, index, keep_array, pos } => Expr::Block { expressions: es, focus, index, keep_array, pos },
        other => other,
    }
}

/// A group-by around another node.
pub open spec fn with_inner(n: Node, i: NodeId) -> Node {
    match n {
        Node::Grouped { group, pos, .. } => Node::Grouped { expr: i, group, pos },
        other => other,
    }
}

fn set_inner(e: Expr, i: NodeId) -> (r: Expr)
    ensures
        r@ == with_inner(e@, i),
{
    match e {
        Expr::Grouped { expr: _, group, pos } => Expr::Grouped { expr: i, group, pos },
        other => other,
    }
}

/// A call of another function with other arguments.
pub open spec fn with_call(n: Node, p: NodeId, a: Seq<NodeId>) -> Node {
    match n {
        Node::Function { pos, thunk, keep_array, group, .. } => Node::Function { procedure: p, arguments: a, pos, thunk, keep_array, group },
        Node::Partial { pos, .. } => Node::Partial { procedure: p, arguments: a, pos },
        other => other,
    }
}

fn set_call(e: Expr, p: NodeId, a: Vec<NodeId>) -> (r: Expr)
    ensures
        r@ == with_call(e@, p, a@),
{
    match e {
        Expr::Function { procedure: _, arguments: _, pos, thunk, keep_array, group } => Expr::Function { procedure: p, arguments: a, pos, thunk, keep_array, group },
        Expr::Partial { procedure: _, arguments: _, pos } => Expr::Partial { procedure: p, arguments: a, pos },
        other => other,
    }
}

/// A function with another body.
pub open spec fn with_body(n: Node, b: NodeId) -> Node {
    match n {
        Node::Lambda { params, signature, pos, thunk, .. } => Node::Lambda { params, body: b, signature, pos, thunk },
        other => other,
    }
}

fn set_body(e: Expr, b: NodeId) -> (r: Expr)
    ensures
        r@ == with_body(e@, b),
{
    match e {
        Expr::Lambda { params, body: _, signature, pos, thunk } => Expr::Lambda { params, body: b, signature, pos, thunk },
        other => other,
    }
}

/// A condition with other parts.
pub open spec fn with_branches(n: Node, c: NodeId, t: NodeId, o: Option<NodeId>) -> Node {
    match n {
        Node::Condition { pos, .. } => Node::Condition { condition: c, then_: t, else_: o, pos },
        other => other,
    }
}

fn set_branches(e: Expr, c: NodeId, t: NodeId, o: Option<NodeId>) -> (r: Expr)
    ensures
        r@ == with_branches(e@, c, t, o),
{
    match e {
        Expr::Condition { condition: _, then_: _, else_: _, pos } => Expr::Condition { condition: c, then_: t, else_: o, pos },
        other => other,
    }
}

/// A transform with other parts.
pub open spec fn with_changes(n: Node, p: NodeId, u: NodeId, d: Option<NodeId>) -> Node {
    match n {
        Node::Transform { pos, .. } => Node::Transform { pattern: p, update: u, delete: d, pos },
        other => other,
    }
}

fn set_changes(e: Expr, p: NodeId, u: NodeId, d: Option<NodeId>) -> (r: Expr)
    ensures
        r@ == with_changes(e@, p, u, d),
{
    match e {
        Expr::Transform { pattern: _, update: _, delete: _, pos } => Expr::Transform { pattern: p, update: u, delete: d, pos },
        other => other,
    }
}

/// An order-by with other parts.
pub open spec fn with_order(n: Node, x: NodeId, ts: Seq<SortTerm>) -> Node {
    match n {
        Node::Sort { keep_array, index, focus, pos, .. } => Node::Sort { expr: x, terms: ts, keep_array, index, focus, pos },
        other => other,
    }
}

fn set_order(e: Expr, x: NodeId, ts: Vec<SortTerm>) -> (r: Expr)
    ensures
        r@ == with_order(e@, x, ts@),
{
    match e {
        Expr::Sort { expr: _, terms: _, keep_array, index, focus, pos } => Expr::Sort { expr: x, terms: ts, keep_array, index, focus, pos },
        other => other,
    }
}

/// A path with other steps, marked where one of them carries the mark.
pub open spec fn with_steps(n: Node, ss: Seq<NodeId>, keep: bool) -> Node {
    match n {
        Node::Path { keep_singleton_array, group, pos, .. } => Node::Path {
            steps: ss,
            keep_singleton_array: keep_singleton_array || keep,
            group,
            pos,
        },
        other => other,
    }
}

fn set_steps(e: Expr, ss: Vec<NodeId>, keep: bool) -> (r: Expr)
    ensures
        r@ == with_steps(e@, ss@, keep),
{
    match e {
        Expr::Path { steps: _, keep_singleton_array, group, pos } => Expr::Path {
            steps: ss,
            keep_singleton_array: keep_singleton_array || keep,
            group,
            pos,
        },
        other => other,
    }
}

/// A call marked as one in tail position.
pub open spec fn as_thunk(n: Node) -> Node {
    match n {
        Node::Function { procedure, arguments, pos, keep_array, group, .. } => Node::Function {
            procedure,
            arguments,
            pos,
            thunk: true,
            keep_array,
            group,
        },
        other => other,
    }
}

fn set_thunk(e: Expr) -> (r: Expr)
    ensures
        r@ == as_thunk(e@),
{
    match e {
        Expr::Function { procedure, arguments, pos, thunk: _, keep_array, group } => Expr::Function {
            procedure,
            arguments,
            pos,
            thunk: true,
            keep_array,
            group,
        },
        other => other,
    }
}

/// The nodes with one put through a function that keeps its place.
pub open spec fn remade(nodes: Seq<Node>, id: NodeId, f: spec_fn(Node) -> Node) -> Seq<Node> {
    if id.index < nodes.len() {
        nodes.update(id.index as int, f(nodes[id.index as int]))
    } else {
        nodes
    }
}

fn copy_at(arena: &AstArena, id: NodeId) -> (r: Option<Expr>)
    ensures
        match r {
            Some(e) => node_at(arena.all(), id) == Some(e@),
            None => node_at(arena.all(), id) is None,
        },
{
    match arena.try_get(id) {
        Some(e) => Some(e.clone()),
        None => None,
    }
}

// ── Tail calls ───────────────────────────────────────────────────────────────

/// The nodes with the calls in tail position of an expression marked, at most
/// `room` nodes deep. A call with a group-by is not in tail position, nor is
/// what a binding binds.
pub open spec fn tail_marked(nodes: Seq<Node>, id: NodeId, room: nat) -> Seq<Node>
    decreases room,
{
    if room == 0 {
        nodes
    } else {
        match node_at(nodes, id) {
            Some(Node::Function { group: None, .. }) => remade(nodes, id, |n: Node| as_thunk(n)),
            Some(Node::Condition { then_, else_, .. }) => {
                let n1 = tail_marked(nodes, then_, (room - 1) as nat);
                match else_ {
                    Some(o) => tail_marked(n1, o, (room - 1) as nat),
                    None => n1,
                }
            },
            Some(Node::Block { expressions, .. }) => if expressions.len() > 0 {
                tail_marked(nodes, expressions.last(), (room - 1) as nat)
            } else {
                nodes
            },
            _ => nodes,
        }
    }
}

fn mark_tail_position(arena: &mut AstArena, node: NodeId, room: usize)
    ensures
        final(arena).flags == old(arena).flags,
        final(arena).all() == tail_marked(old(arena).all(), node, room as nat),
    decreases room,
{
    if room == 0 {
        return;
    }
    match copy_at(arena, node) {
        Some(Expr::Function { procedure, arguments, pos, thunk, keep_array, group: None }) => {
            let e = set_thunk(
                Expr::Function { procedure, arguments, pos, thunk, keep_array, group: None },
            );
            arena.put(node, e);
        },
        Some(Expr::Condition { then_, else_, .. }) => {
            mark_tail_position(arena, then_, room - 1);
            if let Some(o) = else_ {
                mark_tail_position(arena, o, room - 1);
            }
        },
        Some(Expr::Block { expressions, .. }) => {
            if expressions.len() > 0 {
                let last: NodeId = expressions[expressions.len() - 1];
                mark_tail_position(arena, last, room - 1);
            }
        },
        _ => {},
    }
}

fn mark_tail_calls(arena: &mut AstArena, node: NodeId)
    ensures
        final(arena).flags == old(arena).flags,
        final(arena).all() == tail_marked(old(arena).all(), node, old(arena).all().len()),
{
    let room: usize = arena.len();
    mark_tail_position(arena, node, room);
}

// ── Processing ───────────────────────────────────────────────────────────────

/// An expression processed, and put in a path where it must be; the tree may
/// be `room` nodes deep.
pub open spec fn processed(nodes: Seq<Node>, id: NodeId, room: nat) -> Processed<NodeId>
    decreases room, 1int, 0int,
{
    match undecorated(nodes, id, room) {
        Err(e) => Err(e),
        Ok((n1, p)) => wrapped(n1, p),
    }
}

/// An expression processed.
pub open spec fn undecorated(nodes: Seq<Node>, id: NodeId, room: nat) -> Processed<NodeId>
    decreases room, 0int, 0int,
{
    if room == 0 {
        Err("S0210"@)
    } else {
        reworked(nodes, id, (room - 1) as nat)
    }
}

/// The expressions from `k` on processed, after those done.
pub open spec fn all_processed(
    nodes: Seq<Node>,
    ids: Seq<NodeId>,
    k: int,
    done: Seq<NodeId>,
    room: nat,
) -> Processed<Seq<NodeId>>
    decreases room, 2int, ids.len() - k,
{
    if k < 0 || k >= ids.len() {
        Ok((nodes, done))
    } else {
        match processed(nodes, ids[k], room) {
            Err(e) => Err(e),
            Ok((n1, id)) => all_processed(n1, ids, k + 1, done.push(id), room),
        }
    }
}

/// The terms of an order-by from `k` on processed, after those done.
pub open spec fn terms_processed(
    nodes: Seq<Node>,
    terms: Seq<SortTerm>,
    k: int,
    done: Seq<SortTerm>,
    room: nat,
) -> Processed<Seq<SortTerm>>
    decreases room, 2int, terms.len() - k,
{
    if k < 0 || k >= terms.len() {
        Ok((nodes, done))
    } else {
        match processed(nodes, terms[k].expression, room) {
            Err(e) => Err(e),
            Ok((n1, id)) => terms_processed(
                n1,
                terms,
                k + 1,
                done.push(SortTerm { descending: terms[k].descending, expression: id }),
                room,
            ),
        }
    }
}

/// The steps of a path from `k` on processed, after those done; `keep` says
/// whether one of those carries the mark.
pub open spec fn steps_processed(
    nodes: Seq<Node>,
    ids: Seq<NodeId>,
    k: int,
    done: Seq<NodeId>,
    keep: bool,
    room: nat,
) -> Processed<(Seq<NodeId>, bool)>
    decreases room, 2int, ids.len() - k,
{
    if k < 0 || k >= ids.len() {
        Ok((nodes, (done, keep)))
    } else {
        match processed(nodes, ids[k], room) {
            Err(e) => Err(e),
            Ok((n1, id)) => steps_processed(
                n1,
                ids,
                k + 1,
                done.push(id),
                keep || step_keeps(n1, id, n1.len()),
                room,
            ),
        }
    }
}

/// The pairs of a group-by from `k` on processed, after those done.
pub open spec fn pairs_processed(
    nodes: Seq<Node>,
    pairs: Seq<(NodeId, NodeId)>,
    k: int,
    done: Seq<(NodeId, NodeId)>,
    room: nat,
) -> Processed<Seq<(NodeId, NodeId)>>
    decreases room, 2int, pairs.len() - k,
{
    if k < 0 || k >= pairs.len() {
        Ok((nodes, done))
    } else {
        match processed(nodes, pairs[k].0, room) {
            Err(e) => Err(e),
            Ok((n1, a)) => match processed(n1, pairs[k].1, room) {
                Err(e) => Err(e),
                Ok((n2, b)) => pairs_processed(n2, pairs, k + 1, done.push((a, b)), room),
            },
        }
    }
}

/// A node with its group-by processed.
pub open spec fn group_processed(nodes: Seq<Node>, id: NodeId, room: nat) -> Processed<NodeId>
    decreases room, 3int, 0int,
{
    match node_at(nodes, id) {
        None => Ok((nodes, id)),
        Some(n) => match group_in(n) {
            None => Ok((nodes, id)),
            Some(g) => match pairs_processed(nodes, g.pairs, 0, Seq::empty(), room) {
                Err(e) => Err(e),
                Ok((n1, pairs)) => Ok(
                    (remade(n1, id, |m: Node| regrouped(m, Group { pairs, pos: g.pos })), id),
                ),
            },
        },
    }
}

/// An optional expression processed.
pub open spec fn optional_processed(nodes: Seq<Node>, id: Option<NodeId>, room: nat) -> Processed<Option<NodeId>>
    decreases room, 2int, 0int,
{
    match id {
        None => Ok((nodes, None)),
        Some(i) => match processed(nodes, i, room) {
            Err(e) => Err(e),
            Ok((n1, p)) => Ok((n1, Some(p))),
        },
    }
}

/// A node with what it is made of processed.
pub open spec fn reworked(nodes: Seq<Node>, id: NodeId, room: nat) -> Processed<NodeId>
    decreases room, 5int, 0int,
{
    match node_at(nodes, id) {
        None => Ok((nodes, id)),
        Some(Node::Binary { op, lhs, rhs, .. }) => if op == BinaryOp::Dot {
            dot_processed(nodes, id, room)
        } else {
            binary_processed(nodes, id, op, lhs, rhs, room)
        },
        Some(Node::Unary { operand, expressions, lhs, .. }) => unary_processed(
            nodes,
            id,
            operand,
            expressions,
            lhs,
            room,
        ),
        Some(Node::Block { expressions, .. }) => match all_processed(nodes, expressions, 0, Seq::empty(), room) {
            Err(e) => Err(e),
            Ok((n1, es)) => Ok((remade(n1, id, |m: Node| with_expressions(m, es)), id)),
        },
        Some(Node::Grouped { expr, .. }) => match processed(nodes, expr, room) {
            Err(e) => Err(e),
            Ok((n1, x)) => group_processed(remade(n1, id, |m: Node| with_inner(m, x)), id, room),
        },
        Some(Node::Function { procedure, arguments, .. }) => call_processed(nodes, id, procedure, arguments, room),
        Some(Node::Partial { procedure, arguments, .. }) => call_processed(nodes, id, procedure, arguments, room),
        Some(Node::Lambda { body, .. }) => match processed(nodes, body, room) {
            Err(e) => Err(e),
            Ok((n1, b)) => {
                let n2 = remade(n1, id, |m: Node| with_body(m, b));
                Ok((tail_marked(n2, b, n2.len()), id))
            },
        },
        Some(Node::Condition { condition, then_, else_, .. }) => condition_processed(
            nodes,
            id,
            condition,
            then_,
            else_,
            room,
        ),
        Some(Node::Bind { lhs, rhs, .. }) => match processed(nodes, lhs, room) {
            Err(e) => Err(e),
            Ok((n1, l)) => match processed(n1, rhs, room) {
                Err(e) => Err(e),
                Ok((n2, r)) => Ok((remade(n2, id, |m: Node| with_sides(m, l, r)), id)),
            },
        },
        Some(Node::Transform { pattern, update, delete, .. }) => transform_processed(
            nodes,
            id,
            pattern,
            update,
            delete,
            room,
        ),
        Some(Node::Sort { expr, terms, .. }) => match sort_operand(nodes, expr, room) {
            Err(e) => Err(e),
            Ok((n1, x)) => match terms_processed(n1, terms, 0, Seq::empty(), room) {
                Err(e) => Err(e),
                Ok((n2, ts)) => Ok((remade(n2, id, |m: Node| with_order(m, x, ts)), id)),
            },
        },
        Some(Node::Path { steps, .. }) => match steps_processed(nodes, steps, 0, Seq::empty(), false, room) {
            Err(e) => Err(e),
            Ok((n1, (ss, keep))) => group_processed(remade(n1, id, |m: Node| with_steps(m, ss, keep)), id, room),
        },
        Some(_) => group_processed(nodes, id, room),
    }
}

/// A binary operation processed. The left operand of a subscript keeps its shape.
pub open spec fn binary_processed(
    nodes: Seq<Node>,
    id: NodeId,
    op: BinaryOp,
    lhs: NodeId,
    rhs: NodeId,
    room: nat,
) -> Processed<NodeId>
    decreases room, 4int, 0int,
{
    match if op == BinaryOp::Subscript {
        undecorated(nodes, lhs, room)
    } else {
        processed(nodes, lhs, room)
    } {
        Err(e) => Err(e),
        Ok((n1, l)) => match processed(n1, rhs, room) {
            Err(e) => Err(e),
            Ok((n2, r)) => group_processed(remade(n2, id, |m: Node| with_sides(m, l, r)), id, room),
        },
    }
}

pub open spec fn unary_processed(
    nodes: Seq<Node>,
    id: NodeId,
    operand: NodeId,
    expressions: Seq<NodeId>,
    lhs: Seq<NodeId>,
    room: nat,
) -> Processed<NodeId>
    decreases room, 4int, 0int,
{
    match processed(nodes, operand, room) {
        Err(e) => Err(e),
        Ok((n1, o)) => match all_processed(n1, expressions, 0, Seq::empty(), room) {
            Err(e) => Err(e),
            Ok((n2, es)) => match all_processed(n2, lhs, 0, Seq::empty(), room) {
                Err(e) => Err(e),
                Ok((n3, l)) => group_processed(remade(n3, id, |m: Node| with_parts(m, o, es, l)), id, room),
            },
        },
    }
}

pub open spec fn call_processed(
    nodes: Seq<Node>,
    id: NodeId,
    procedure: NodeId,
    arguments: Seq<NodeId>,
    room: nat,
) -> Processed<NodeId>
    decreases room, 4int, 0int,
{
    match processed(nodes, procedure, room) {
        Err(e) => Err(e),
        Ok((n1, p)) => match all_processed(n1, arguments, 0, Seq::empty(), room) {
            Err(e) => Err(e),
            Ok((n2, a)) => group_processed(remade(n2, id, |m: Node| with_call(m, p, a)), id, room),
        },
    }
}

pub open spec fn condition_processed(
    nodes: Seq<Node>,
    id: NodeId,
    condition: NodeId,
    then_: NodeId,
    else_: Option<NodeId>,
    room: nat,
) -> Processed<NodeId>
    decreases room, 4int, 0int,
{
    match processed(nodes, condition, room) {
        Err(e) => Err(e),
        Ok((n1, c)) => match processed(n1, then_, room) {
            Err(e) => Err(e),
            Ok((n2, t)) => match optional_processed(n2, else_, room) {
                Err(e) => Err(e),
                Ok((n3, o)) => Ok((remade(n3, id, |m: Node| with_branches(m, c, t, o)), id)),
            },
        },
    }
}

pub open spec fn transform_processed(
    nodes: Seq<Node>,
    id: NodeId,
    pattern: NodeId,
    update: NodeId,
    delete: Option<NodeId>,
    room: nat,
) -> Processed<NodeId>
    decreases room, 4int, 0int,
{
    match processed(nodes, pattern, room) {
        Err(e) => Err(e),
        Ok((n1, p)) => match processed(n1, update, room) {
            Err(e) => Err(e),
            Ok((n2, u)) => match optional_processed(n2, delete, room) {
                Err(e) => Err(e),
                Ok((n3, d)) => Ok((remade(n3, id, |m: Node| with_changes(m, p, u, d)), id)),
            },
        },
    }
}

/// The operand of an order-by processed. A wildcard keeps its shape.
pub open spec fn sort_operand(nodes: Seq<Node>, id: NodeId, room: nat) -> Processed<NodeId>
    decreases room, 2int, 0int,
{
    if node_at(nodes, id) matches Some(Node::Wildcard { .. }) {
        undecorated(nodes, id, room)
    } else {
        processed(nodes, id, room)
    }
}

/// A chain of dots as a path: its steps, with the one group-by of the chain
/// and the mark of any step.
pub open spec fn dot_processed(nodes: Seq<Node>, id: NodeId, room: nat) -> Processed<NodeId>
    decreases room, 4int, 0int,
{
    match collected(nodes, id, Seq::empty(), None, room) {
        Err(e) => Err(e),
        Ok((n1, (steps, group))) => {
            let pos = match node_at(n1, id) {
                Some(n) => node_pos(n),
                None => 0,
            };
            let keep = any_keeps(n1, steps, 0);
            match group {
                None => Ok(
                    (changed(n1, id, Node::Path { steps, keep_singleton_array: keep, group: None, pos }), id),
                ),
                Some(g) => match pairs_processed(n1, g.pairs, 0, Seq::empty(), room) {
                    Err(e) => Err(e),
                    Ok((n2, pairs)) => Ok(
                        (
                            changed(
                                n2,
                                id,
                                Node::Path {
                                    steps,
                                    keep_singleton_array: keep,
                                    group: Some(Group { pairs, pos: g.pos }),
                                    pos,
                                },
                            ),
                            id,
                        ),
                    ),
                },
            }
        },
    }
}

/// The steps of a chain of dots, after those collected, and its group-by.
pub open spec fn collected(
    nodes: Seq<Node>,
    id: NodeId,
    steps: Seq<NodeId>,
    group: Option<Group>,
    room: nat,
) -> Processed<(Seq<NodeId>, Option<Group>)>
    decreases room, 3int, 0int,
{
    if room == 0 {
        Err("S0210"@)
    } else {
        match node_at(nodes, id) {
            Some(Node::Binary { op: BinaryOp::Dot, lhs, rhs, group: own, .. }) => if own is Some && group is Some {
                Err("S0210"@)
            } else {
                match collected(
                    nodes,
                    lhs,
                    steps,
                    if own is Some {
                        own
                    } else {
                        group
                    },
                    (room - 1) as nat,
                ) {
                    Err(e) => Err(e),
                    Ok((n1, (s1, g1))) => collected(n1, rhs, s1, g1, (room - 1) as nat),
                }
            },
            _ => match processed(nodes, id, (room - 1) as nat) {
                Err(e) => Err(e),
                Ok((n1, p)) => match node_at(n1, p) {
                    Some(Node::Path { steps: ps, .. }) => Ok((n1, (steps + ps, group))),
                    Some(Node::StringLit { value, pos }) => match allocated(n1, name_node(value, pos)) {
                        Err(e) => Err(e),
                        Ok((n2, name)) => Ok((n2, (steps.push(name), group))),
                    },
                    _ => Ok((n1, (steps.push(p), group))),
                },
            },
        }
    }
}

/// `stacker::maybe_grow`: runs its closure, on a larger stack where little of
/// the present one is left, and gives what the closure gives. The closure
/// calls `process_node_inner`, whose contract this one repeats.
#[verifier::external_body]
fn process_on_stack(arena: &mut AstArena, node: NodeId, room: u128) -> (r: Result<NodeId, JsonataError>)
    ensures
        is_done(*old(arena), *final(arena), r, reworked(old(arena).all(), node, room as nat)),
{
    stacker::maybe_grow(128 * 1024, 4 * 1024 * 1024, || process_node_inner(arena, node, room))
}

fn process_node_undecorated(arena: &mut AstArena, node: NodeId, room: u128) -> (r: Result<NodeId, JsonataError>)
    ensures
        is_done(*old(arena), *final(arena), r, undecorated(old(arena).all(), node, room as nat)),
{
    if room == 0 {
        return Err(JsonataError::new("S0210", "expression is too deeply nested"));
    }
    process_on_stack(arena, node, room - 1)
}

fn process_node(arena: &mut AstArena, node: NodeId, room: u128) -> (r: Result<NodeId, JsonataError>)
    ensures
        is_done(*old(arena), *final(arena), r, processed(old(arena).all(), node, room as nat)),
{
    let p: NodeId = match process_node_undecorated(arena, node, room) {
        Ok(v) => v,
        Err(e) => {
            return Err(e);
        },
    };
    wrap_decorated_step(arena, p)
}

fn process_all(arena: &mut AstArena, ids: &Vec<NodeId>, room: u128) -> (r: Result<Vec<NodeId>, JsonataError>)
    ensures
        final(arena).flags == old(arena).flags,
        match r {
            Ok(v) => all_processed(old(arena).all(), ids@, 0, Seq::empty(), room as nat) == Ok::<(Seq<Node>, Seq<NodeId>), Seq<char>>((final(arena).all(), v@)),
            Err(e) => all_processed(old(arena).all(), ids@, 0, Seq::empty(), room as nat) == Err::<(Seq<Node>, Seq<NodeId>), Seq<char>>(e.code@) && fault(e) == bare_fault(e.code@),
        },
{
    let ghost want = all_processed(arena.all(), ids@, 0, Seq::empty(), room as nat);
    let mut done: Vec<NodeId> = Vec::new();
    let mut k: usize = 0;
    assert(done@ =~= Seq::<NodeId>::empty());
    while k < ids.len()
        invariant
            k <= ids.len(),
            arena.flags == old(arena).flags,
            want == all_processed(old(arena).all(), ids@, 0, Seq::empty(), room as nat),
            want == all_processed(arena.all(), ids@, k as int, done@, room as nat),
        decreases ids.len() - k,
    {
        let id: NodeId = match process_node(arena, ids[k], room) {
            Ok(v) => v,
            Err(e) => {
                return Err(e);
            },
        };
        done.push(id);
        k = k + 1;
    }
    Ok(done)
}

fn process_terms(arena: &mut AstArena, terms: &Vec<SortTerm>, room: u128) -> (r: Result<Vec<SortTerm>, JsonataError>)
    ensures
        final(arena).flags == old(arena).flags,
        match r {
            Ok(v) => terms_processed(old(arena).all(), terms@, 0, Seq::empty(), room as nat) == Ok::<(Seq<Node>, Seq<SortTerm>), Seq<char>>((final(arena).all(), v@)),
            Err(e) => terms_processed(old(arena).all(), terms@, 0, Seq::empty(), room as nat) == Err::<(Seq<Node>, Seq<SortTerm>), Seq<char>>(e.code@) && fault(e) == bare_fault(e.code@),
        },
{
    let ghost want = terms_processed(arena.all(), terms@, 0, Seq::empty(), room as nat);
    let mut done: Vec<SortTerm> = Vec::new();
    let mut k: usize = 0;
    assert(done@ =~= Seq::<SortTerm>::empty());
    while k < terms.len()
        invariant
            k <= terms.len(),
            arena.flags == old(arena).flags,
            want == terms_processed(old(arena).all(), terms@, 0, Seq::empty(), room as nat),
            want == terms_processed(arena.all(), terms@, k as int, done@, room as nat),
        decreases terms.len() - k,
    {
        let id: NodeId = match process_node(arena, terms[k].expression, room) {
            Ok(v) => v,
            Err(e) => {
                return Err(e);
            },
        };
        done.push(SortTerm { descending: terms[k].descending, expression: id });
        k = k + 1;
    }
    Ok(done)
}

fn process_steps(arena: &mut AstArena, ids: &Vec<NodeId>, room: u128) -> (r: Result<(Vec<NodeId>, bool), JsonataError>)
    ensures
        final(arena).flags == old(arena).flags,
        match r {
            Ok(v) => steps_processed(old(arena).all(), ids@, 0, Seq::empty(), false, room as nat) == Ok::<(Seq<Node>, (Seq<NodeId>, bool)), Seq<char>>((final(arena).all(), (v.0@, v.1))),
            Err(e) => steps_processed(old(arena).all(), ids@, 0, Seq::empty(), false, room as nat) == Err::<(Seq<Node>, (Seq<NodeId>, bool)), Seq<char>>(e.code@) && fault(e) == bare_fault(e.code@),
        },
{
    let ghost want = steps_processed(arena.all(), ids@, 0, Seq::empty(), false, room as nat);
    let mut done: Vec<NodeId> = Vec::new();
    let mut keep: bool = false;
    let mut k: usize = 0;
    assert(done@ =~= Seq::<NodeId>::empty());
    while k < ids.len()
        invariant
            k <= ids.len(),
            arena.flags == old(arena).flags,
            want == steps_processed(old(arena).all(), ids@, 0, Seq::empty(), false, room as nat),
            want == steps_processed(arena.all(), ids@, k as int, done@, keep, room as nat),
        decreases ids.len() - k,
    {
        let id: NodeId = match process_node(arena, ids[k], room) {
            Ok(v) => v,
            Err(e) => {
                return Err(e);
            },
        };
        if step_has_keep_array(arena, id) {
            keep = true;
        }
        done.push(id);
        k = k + 1;
    }
    Ok((done, keep))
}

fn process_pairs(arena: &mut AstArena, g: &GroupExpr, room: u128) -> (r: Result<GroupExpr, JsonataError>)
    ensures
        final(arena).flags == old(arena).flags,
        match r {
            Ok(h) => pairs_processed(old(arena).all(), g.pairs@, 0, Seq::empty(), room as nat) == Ok::<
                (Seq<Node>, Seq<(NodeId, NodeId)>),
                Seq<char>,
            >((final(arena).all(), h.pairs@)) && h.pos == g.pos,
            Err(e) => pairs_processed(old(arena).all(), g.pairs@, 0, Seq::empty(), room as nat) == Err::<
                (Seq<Node>, Seq<(NodeId, NodeId)>),
                Seq<char>,
            >(e.code@) && fault(e) == bare_fault(e.code@),
        },
{
    let ghost want = pairs_processed(arena.all(), g.pairs@, 0, Seq::empty(), room as nat);
    let mut done: Vec<(NodeId, NodeId)> = Vec::new();
    let mut k: usize = 0;
    assert(done@ =~= Seq::<(NodeId, NodeId)>::empty());
    while k < g.pairs.len()
        invariant
            k <= g.pairs.len(),
            arena.flags == old(arena).flags,
            want == pairs_processed(old(arena).all(), g.pairs@, 0, Seq::empty(), room as nat),
            want == pairs_processed(arena.all(), g.pairs@, k as int, done@, room as nat),
        decreases g.pairs.len() - k,
    {
        let (key, value) = g.pairs[k];
        let a: NodeId = match process_node(arena, key, room) {
            Ok(v) => v,
            Err(e) => {
                return Err(e);
            },
        };
        let b: NodeId = match process_node(arena, value, room) {
            Ok(v) => v,
            Err(e) => {
                return Err(e);
            },
        };
        done.push((a, b));
        k = k + 1;
    }
    Ok(GroupExpr { pairs: done, pos: g.pos })
}

fn process_group(arena: &mut AstArena, node: NodeId, room: u128) -> (r: Result<NodeId, JsonataError>)
    ensures
        is_done(*old(arena), *final(arena), r, group_processed(old(arena).all(), node, room as nat)),
{
    let group = match arena.try_get(node) {
        Some(e) => group_inside(e),
        None => None,
    };
    match group {
        None => Ok(node),
        Some(g) => {
            let h: GroupExpr = match process_pairs(arena, &g, room) {
                Ok(v) => v,
                Err(e) => {
                    return Err(e);
                },
            };
            if let Some(m) = copy_at(arena, node) {
                arena.put(node, regroup(m, h));
            }
            Ok(node)
        },
    }
}

fn process_optional(arena: &mut AstArena, id: Option<NodeId>, room: u128) -> (r: Result<Option<NodeId>, JsonataError>)
    ensures
        final(arena).flags == old(arena).flags,
        match r {
            Ok(p) => optional_processed(old(arena).all(), id, room as nat) == Ok::<
                (Seq<Node>, Option<NodeId>),
                Seq<char>,
            >((final(arena).all(), p)),
            Err(e) => optional_processed(old(arena).all(), id, room as nat) == Err::<
                (Seq<Node>, Option<NodeId>),
                Seq<char>,
            >(e.code@) && fault(e) == bare_fault(e.code@),
        },
{
    match id {
        None => Ok(None),
        Some(i) => match process_node(arena, i, room) {
            Ok(p) => Ok(Some(p)),
            Err(e) => Err(e),
        },
    }
}

fn process_binary(arena: &mut AstArena, node: NodeId, op: BinaryOp, lhs: NodeId, rhs: NodeId, room: u128) -> (r: Result<NodeId, JsonataError>)
    ensures
        is_done(*old(arena), *final(arena), r, binary_processed(old(arena).all(), node, op, lhs, rhs, room as nat)),
{
    let l: NodeId = match if op == BinaryOp::Subscript {
        process_subscript_lhs(arena, lhs, room)
    } else {
        process_node(arena, lhs, room)
    } {
        Ok(v) => v,
        Err(e) => {
            return Err(e);
        },
    };
    let s: NodeId = match process_node(arena, rhs, room) {
        Ok(v) => v,
        Err(e) => {
            return Err(e);
        },
    };
    if let Some(m) = copy_at(arena, node) {
        arena.put(node, set_sides(m, l, s));
    }
    process_group(arena, node, room)
}

/// The left operand of a subscript keeps its shape: what asks for the mark of
/// `[]` finds it by following that side.
fn process_subscript_lhs(arena: &mut AstArena, node: NodeId, room: u128) -> (r: Result<NodeId, JsonataError>)
    ensures
        is_done(*old(arena), *final(arena), r, undecorated(old(arena).all(), node, room as nat)),
{
    process_node_undecorated(arena, node, room)
}

fn process_unary(arena: &mut AstArena, node: NodeId, operand: NodeId, expressions: &Vec<NodeId>, lhs: &Vec<NodeId>, room: u128) -> (r: Result<NodeId, JsonataError>)
    ensures
        is_done(*old(arena), *final(arena), r, unary_processed(old(arena).all(), node, operand, expressions@, lhs@, room as nat)),
{
    let o: NodeId = match process_node(arena, operand, room) {
        Ok(v) => v,
        Err(e) => {
            return Err(e);
        },
    };
    let es: Vec<NodeId> = match process_all(arena, expressions, room) {
        Ok(v) => v,
        Err(e) => {
            return Err(e);
        },
    };
    let l: Vec<NodeId> = match process_all(arena, lhs, room) {
        Ok(v) => v,
        Err(e) => {
            return Err(e);
        },
    };
    if let Some(m) = copy_at(arena, node) {
        arena.put(node, set_parts(m, o, es, l));
    }
    process_group(arena, node, room)
}

fn process_call(arena: &mut AstArena, node: NodeId, procedure: NodeId, arguments: &Vec<NodeId>, room: u128) -> (r: Result<NodeId, JsonataError>)
    ensures
        is_done(*old(arena), *final(arena), r, call_processed(old(arena).all(), node, procedure, arguments@, room as nat)),
{
    let p: NodeId = match process_node(arena, procedure, room) {
        Ok(v) => v,
        Err(e) => {
            return Err(e);
        },
    };
    let a: Vec<NodeId> = match process_all(arena, arguments, room) {
        Ok(v) => v,
        Err(e) => {
            return Err(e);
        },
    };
    if let Some(m) = copy_at(arena, node) {
        arena.put(node, set_call(m, p, a));
    }
    process_group(arena, node, room)
}

fn process_condition(arena: &mut AstArena, node: NodeId, condition: NodeId, then_: NodeId, else_: Option<NodeId>, room: u128) -> (r: Result<NodeId, JsonataError>)
    ensures
        is_done(*old(arena), *final(arena), r, condition_processed(old(arena).all(), node, condition, then_, else_, room as nat)),
{
    let c: NodeId = match process_node(arena, condition, room) {
        Ok(v) => v,
        Err(e) => {
            return Err(e);
        },
    };
    let t: NodeId = match process_node(arena, then_, room) {
        Ok(v) => v,
        Err(e) => {
            return Err(e);
        },
    };
    let o: Option<NodeId> = match process_optional(arena, else_, room) {
        Ok(v) => v,
        Err(e) => {
            return Err(e);
        },
    };
    if let Some(m) = copy_at(arena, node) {
        arena.put(node, set_branches(m, c, t, o));
    }
    Ok(node)
}

fn process_transform(arena: &mut AstArena, node: NodeId, pattern: NodeId, update: NodeId, delete: Option<NodeId>, room: u128) -> (r: Result<NodeId, JsonataError>)
    ensures
        is_done(*old(arena), *final(arena), r, transform_processed(old(arena).all(), node, pattern, update, delete, room as nat)),
{
    let p: NodeId = match process_node(arena, pattern, room) {
        Ok(v) => v,
        Err(e) => {
            return Err(e);
        },
    };
    let u: NodeId = match process_node(arena, update, room) {
        Ok(v) => v,
        Err(e) => {
            return Err(e);
        },
    };
    let d: Option<NodeId> = match process_optional(arena, delete, room) {
        Ok(v) => v,
        Err(e) => {
            return Err(e);
        },
    };
    if let Some(m) = copy_at(arena, node) {
        arena.put(node, set_changes(m, p, u, d));
    }
    Ok(node)
}

fn process_sort_operand(arena: &mut AstArena, node: NodeId, room: u128) -> (r: Result<NodeId, JsonataError>)
    ensures
        is_done(*old(arena), *final(arena), r, sort_operand(old(arena).all(), node, room as nat)),
{
    let wildcard: bool = match arena.try_get(node) {
        Some(Expr::Wildcard { .. }) => true,
        _ => false,
    };
    if wildcard {
        process_node_undecorated(arena, node, room)
    } else {
        process_node(arena, node, room)
    }
}

fn process_dot_binary(arena: &mut AstArena, node: NodeId, room: u128) -> (r: Result<NodeId, JsonataError>)
    ensures
        is_done(*old(arena), *final(arena), r, dot_processed(old(arena).all(), node, room as nat)),
{
    let mut steps: Vec<NodeId> = Vec::new();
    let mut chain_group: Option<GroupExpr> = None;
    assert(steps@ =~= Seq::<NodeId>::empty());
    match collect_path_steps(arena, node, &mut steps, &mut chain_group, room) {
        Ok(_) => {},
        Err(e) => {
            return Err(e);
        },
    }
    let pos: usize = match arena.try_get(node) {
        Some(e) => e.pos(),
        None => 0,
    };
    let keep: bool = any_step_keeps(arena, &steps);
    let group: Option<GroupExpr> = match chain_group {
        None => None,
        Some(g) => match process_pairs(arena, &g, room) {
            Ok(h) => Some(h),
            Err(e) => {
                return Err(e);
            },
        },
    };
    if (node.index as usize) < arena.len() {
        arena.put(node, Expr::Path { steps, keep_singleton_array: keep, group, pos });
    }
    Ok(node)
}

fn collect_path_steps(
    arena: &mut AstArena,
    node: NodeId,
    steps: &mut Vec<NodeId>,
    group: &mut Option<GroupExpr>,
    room: u128,
) -> (r: Result<(), JsonataError>)
    ensures
        final(arena).flags == old(arena).flags,
        match r {
            Ok(_) => collected(
                old(arena).all(),
                node,
                old(steps)@,
                group_of_option(*old(group)),
                room as nat,
            ) == Ok::<(Seq<Node>, (Seq<NodeId>, Option<Group>)), Seq<char>>(
                (final(arena).all(), (final(steps)@, group_of_option(*final(group)))),
            ),
            Err(e) => collected(
                old(arena).all(),
                node,
                old(steps)@,
                group_of_option(*old(group)),
                room as nat,
            ) == Err::<(Seq<Node>, (Seq<NodeId>, Option<Group>)), Seq<char>>(e.code@) && fault(e) == bare_fault(e.code@),
        },
    decreases room,
{
    if room == 0 {
        return Err(JsonataError::new("S0210", "expression is too deeply nested"));
    }
    let dot: Option<(NodeId, NodeId, Option<GroupExpr>)> = match arena.try_get(node) {
        Some(Expr::Binary { op: BinaryOp::Dot, lhs, rhs, group: own, .. }) => Some((*lhs, *rhs, copy_group(own))),
        _ => None,
    };
    if let Some((lhs, rhs, own)) = dot {
        if own.is_some() {
            if group.is_some() {
                return Err(JsonataError::new("S0210", "each step can only have one grouping expression"));
            }
            *group = own;
        }
        match collect_path_steps(arena, lhs, steps, group, room - 1) {
            Ok(_) => {},
            Err(e) => {
                return Err(e);
            },
        }
        return collect_path_steps(arena, rhs, steps, group, room - 1);
    }
    let p: NodeId = match process_node(arena, node, room - 1) {
        Ok(v) => v,
        Err(e) => {
            return Err(e);
        },
    };
    let spliced: Option<Vec<NodeId>> = match arena.try_get(p) {
        Some(Expr::Path { steps: ps, .. }) => Some(copy_ids(ps)),
        _ => None,
    };
    if let Some(ps) = spliced {
        let mut i: usize = 0;
        let ghost before = steps@;
        while i < ps.len()
            invariant
                i <= ps.len(),
                steps@ =~= before + ps@.take(i as int),
            decreases ps.len() - i,
        {
            steps.push(ps[i]);
            i = i + 1;
        }
        assert(ps@.take(i as int) =~= ps@);
        return Ok(());
    }
    let quoted: Option<(String, usize)> = match arena.try_get(p) {
        Some(Expr::StringLit { value, pos }) => Some((value.clone(), *pos)),
        _ => None,
    };
    if let Some((value, pos)) = quoted {
        let name: NodeId = match arena.add_node(super::plain_name(value, pos)) {
            Ok(v) => v,
            Err(e) => {
                return Err(e);
            },
        };
        steps.push(name);
        return Ok(());
    }
    steps.push(p);
    Ok(())
}

fn process_node_inner(arena: &mut AstArena, node: NodeId, room: u128) -> (r: Result<NodeId, JsonataError>)
    ensures
        is_done(*old(arena), *final(arena), r, reworked(old(arena).all(), node, room as nat)),
{
    match copy_at(arena, node) {
        None => Ok(node),
        Some(Expr::Binary { op, lhs, rhs, .. }) => {
            if op == BinaryOp::Dot {
                process_dot_binary(arena, node, room)
            } else {
                process_binary(arena, node, op, lhs, rhs, room)
            }
        },
        Some(Expr::Unary { operand, expressions, lhs, .. }) => process_unary(
            arena,
            node,
            operand,
            &expressions,
            &lhs,
            room,
        ),
        Some(Expr::Block { expressions, .. }) => {
            let es: Vec<NodeId> = match process_all(arena, &expressions, room) {
                Ok(v) => v,
                Err(e) => {
                    return Err(e);
                },
            };
            if let Some(m) = copy_at(arena, node) {
                arena.put(node, set_expressions(m, es));
            }
            Ok(node)
        },
        Some(Expr::Grouped { expr, .. }) => {
            let x: NodeId = match process_node(arena, expr, room) {
                Ok(v) => v,
                Err(e) => {
                    return Err(e);
                },
            };
            if let Some(m) = copy_at(arena, node) {
                arena.put(node, set_inner(m, x));
            }
            process_group(arena, node, room)
        },
        Some(Expr::Function { procedure, arguments, .. }) => process_call(arena, node, procedure, &arguments, room),
        Some(Expr::Partial { procedure, arguments, .. }) => process_call(arena, node, procedure, &arguments, room),
        Some(Expr::Lambda { body, .. }) => {
            let b: NodeId = match process_node(arena, body, room) {
                Ok(v) => v,
                Err(e) => {
                    return Err(e);
                },
            };
            if let Some(m) = copy_at(arena, node) {
                arena.put(node, set_body(m, b));
            }
            mark_tail_calls(arena, b);
            Ok(node)
        },
        Some(Expr::Condition { condition, then_, else_, .. }) => process_condition(
            arena,
            node,
            condition,
            then_,
            else_,
            room,
        ),
        Some(Expr::Bind { lhs, rhs, .. }) => {
            let l: NodeId = match process_node(arena, lhs, room) {
                Ok(v) => v,
                Err(e) => {
                    return Err(e);
                },
            };
            let s: NodeId = match process_node(arena, rhs, room) {
                Ok(v) => v,
                Err(e) => {
                    return Err(e);
                },
            };
            if let Some(m) = copy_at(arena, node) {
                arena.put(node, set_sides(m, l, s));
            }
            Ok(node)
        },
        Some(Expr::Transform { pattern, update, delete, .. }) => process_transform(
            arena,
            node,
            pattern,
            update,
            delete,
            room,
        ),
        Some(Expr::Sort { expr, terms, .. }) => {
            let x: NodeId = match process_sort_operand(arena, expr, room) {
                Ok(v) => v,
                Err(e) => {
                    return Err(e);
                },
            };
            let ts: Vec<SortTerm> = match process_terms(arena, &terms, room) {
                Ok(v) => v,
                Err(e) => {
                    return Err(e);
                },
            };
            if let Some(m) = copy_at(arena, node) {
                arena.put(node, set_order(m, x, ts));
            }
            Ok(node)
        },
        Some(Expr::Path { steps, .. }) => {
            let (ss, keep) = match process_steps(arena, &steps, room) {
                Ok(v) => v,
                Err(e) => {
                    return Err(e);
                },
            };
            if let Some(m) = copy_at(arena, node) {
                arena.put(node, set_steps(m, ss, keep));
            }
            process_group(arena, node, room)
        },
        Some(_) => process_group(arena, node, room),
    }
}

// ── Properties of nodes ──────────────────────────────────────────────────────

/// The bits of a node, or none where they have not been computed.
pub open spec fn bits(flags: Seq<u8>, id: NodeId) -> u8 {
    match flags_at(flags, id) {
        Some(f) => f,
        None => 0,
    }
}

/// The bits that a node has by itself.
pub open spec fn own_bits(n: Node) -> u8 {
    let kind = match n {
        Node::Parent { .. } => COMPUTED | PARENT_REF,
        Node::Variable { name, .. } => if name == "index"@ || name == "key"@ {
            COMPUTED | GROUP_BINDINGS
        } else {
            COMPUTED
        },
        _ => COMPUTED,
    };
    let binds = match n {
        Node::Name { focus, index, .. } => focus is Some || index is Some,
        Node::Variable { focus, index, .. } => focus is Some || index is Some,
        Node::Binary { focus, index, .. } => focus is Some || index is Some,
        Node::Sort { focus, index, .. } => focus is Some || index is Some,
        Node::Block { focus, index, .. } => focus is Some || index is Some,
        _ => false,
    };
    if binds {
        kind | INDEX_BINDING
    } else {
        kind
    }
}

/// Bits with those that pass from every child, up to the first `k`.
pub open spec fn with_child_bits(f: u8, kids: Seq<NodeId>, flags: Seq<u8>, k: int) -> u8
    decreases k,
{
    if k <= 0 {
        f
    } else {
        with_child_bits(f, kids, flags, k - 1) | (bits(flags, kids[k - 1]) & (PARENT_REF | GROUP_BINDINGS))
    }
}

/// Bits with the binding that passes from steps, up to the first `k`.
pub open spec fn with_step_bits(f: u8, steps: Seq<NodeId>, flags: Seq<u8>, k: int) -> u8
    decreases k,
{
    if k <= 0 {
        f
    } else {
        with_step_bits(f, steps, flags, k - 1) | (bits(flags, steps[k - 1]) & INDEX_BINDING)
    }
}

/// The nodes on the path of a node: operands of a subscript, the operand of an
/// order-by, the steps of a path.
pub open spec fn path_kids(n: Node) -> Seq<NodeId> {
    match n {
        Node::Binary { op, lhs, rhs, .. } => if op == BinaryOp::Subscript {
            seq![lhs, rhs]
        } else {
            Seq::empty()
        },
        Node::Sort { expr, .. } => seq![expr],
        Node::Path { steps, .. } => steps,
        _ => Seq::empty(),
    }
}

/// The bits of a node from those of the nodes that it refers to.
pub open spec fn node_bits(n: Node, flags: Seq<u8>) -> u8 {
    let kids = children(n);
    let path = path_kids(n);
    with_step_bits(
        with_child_bits(own_bits(n), kids, flags, kids.len() as int),
        path,
        flags,
        path.len() as int,
    )
}

/// Whether every computed node has the bits that follow from the nodes that it
/// refers to, and those have been computed too.
pub open spec fn consistent(nodes: Seq<Node>, flags: Seq<u8>) -> bool {
    forall|i: u32|
        i < nodes.len() && flags_at(flags, NodeId { index: i }) is Some ==> settled_at(nodes, flags, i)
}

pub open spec fn settled_at(nodes: Seq<Node>, flags: Seq<u8>, i: u32) -> bool {
    &&& flags_at(flags, NodeId { index: i }) == Some(node_bits(nodes[i as int], flags))
    &&& kids_computed(nodes, flags, children(nodes[i as int]))
}

pub open spec fn kids_computed(nodes: Seq<Node>, flags: Seq<u8>, kids: Seq<NodeId>) -> bool {
    forall|k: int|
        0 <= k < kids.len() && (#[trigger] kids[k]).index < nodes.len() ==> flags_at(flags, kids[k]) is Some
}

/// Whether a rank falls from every node to the nodes that it refers to.
pub open spec fn ranked(nodes: Seq<Node>, rank: spec_fn(u32) -> nat) -> bool {
    forall|i: u32, k: int|
        i < nodes.len() && 0 <= k < children(nodes[i as int]).len() && (#[trigger] children(
            nodes[i as int],
        )[k]).index < nodes.len() ==> rank(children(nodes[i as int])[k].index) < #[trigger] rank(i)
}

/// Whether no node refers to itself, directly or through others.
pub open spec fn acyclic(nodes: Seq<Node>) -> bool {
    exists|rank: spec_fn(u32) -> nat| ranked(nodes, rank)
}

fn bits_of(arena: &AstArena, id: NodeId) -> (r: u8)
    ensures
        r == bits(arena.flags@, id),
{
    match arena.node_static_flags(id) {
        Some(f) => f,
        None => 0,
    }
}

fn own_flags(e: &Expr) -> (r: u8)
    ensures
        r == own_bits(e@),
{
    let kind: u8 = match e {
        Expr::Parent { .. } => COMPUTED | PARENT_REF,
        Expr::Variable { name, .. } => {
            let n = chars_of(name.as_str());
            if is_text(n.as_slice(), "index") || is_text(n.as_slice(), "key") {
                COMPUTED | GROUP_BINDINGS
            } else {
                COMPUTED
            }
        },
        _ => COMPUTED,
    };
    let binds: bool = match e {
        Expr::Name { focus, index, .. } => focus.is_some() || index.is_some(),
        Expr::Variable { focus, index, .. } => focus.is_some() || index.is_some(),
        Expr::Binary { focus, index, .. } => focus.is_some() || index.is_some(),
        Expr::Sort { focus, index, .. } => focus.is_some() || index.is_some(),
        Expr::Block { focus, index, .. } => focus.is_some() || index.is_some(),
        _ => false,
    };
    if binds {
        kind | INDEX_BINDING
    } else {
        kind
    }
}

fn path_of(e: &Expr) -> (r: Vec<NodeId>)
    ensures
        r@ == path_kids(e@),
{
    match e {
        Expr::Binary { op, lhs, rhs, .. } => {
            let mut r: Vec<NodeId> = Vec::new();
            if *op == BinaryOp::Subscript {
                r.push(*lhs);
                r.push(*rhs);
            }
            assert(r@ =~= path_kids(e@));
            r
        },
        Expr::Sort { expr, .. } => {
            let mut r: Vec<NodeId> = Vec::new();
            r.push(*expr);
            assert(r@ =~= path_kids(e@));
            r
        },
        Expr::Path { steps, .. } => copy_ids(steps),
        _ => {
            let r: Vec<NodeId> = Vec::new();
            assert(r@ =~= path_kids(e@));
            r
        },
    }
}

fn compute_bits(arena: &AstArena, id: NodeId) -> (r: u8)
    requires
        id.index < arena.all().len(),
    ensures
        r == node_bits(arena.all()[id.index as int], arena.flags@),
{
    let e: &Expr = arena.get(id);
    let mut kids: Vec<NodeId> = Vec::new();
    push_children(e, &mut kids);
    assert(kids@ =~= children(e@));
    let own: u8 = own_flags(e);
    let mut f: u8 = own;
    let mut k: usize = 0;
    while k < kids.len()
        invariant
            k <= kids.len(),
            f == with_child_bits(own, kids@, arena.flags@, k as int),
        decreases kids.len() - k,
    {
        f = f | (bits_of(arena, kids[k]) & (PARENT_REF | GROUP_BINDINGS));
        k = k + 1;
    }
    let path = path_of(e);
    let base: u8 = f;
    let mut j: usize = 0;
    while j < path.len()
        invariant
            j <= path.len(),
            f == with_step_bits(base, path@, arena.flags@, j as int),
        decreases path.len() - j,
    {
        f = f | (bits_of(arena, path[j]) & INDEX_BINDING);
        j = j + 1;
    }
    f
}

proof fn lemma_or_keeps(f: u8, x: u8)
    requires
        f & COMPUTED != 0,
    ensures
        (f | x) & COMPUTED != 0,
{
    assert((f | x) & 1u8 != 0) by (bit_vector)
        requires
            f & 1u8 != 0,
    ;
}

proof fn lemma_own_computed(n: Node)
    ensures
        own_bits(n) & COMPUTED != 0,
{
    assert(1u8 & 1u8 != 0) by (bit_vector);
    assert((1u8 | 2u8) & 1u8 != 0) by (bit_vector);
    assert((1u8 | 8u8) & 1u8 != 0) by (bit_vector);
    assert((1u8 | 4u8) & 1u8 != 0) by (bit_vector);
    assert(((1u8 | 2u8) | 4u8) & 1u8 != 0) by (bit_vector);
    assert(((1u8 | 8u8) | 4u8) & 1u8 != 0) by (bit_vector);
}

proof fn lemma_child_bits_computed(f: u8, kids: Seq<NodeId>, flags: Seq<u8>, k: int)
    requires
        f & COMPUTED != 0,
    ensures
        with_child_bits(f, kids, flags, k) & COMPUTED != 0,
    decreases k,
{
    if k > 0 {
        lemma_child_bits_computed(f, kids, flags, k - 1);
        lemma_or_keeps(
            with_child_bits(f, kids, flags, k - 1),
            bits(flags, kids[k - 1]) & (PARENT_REF | GROUP_BINDINGS),
        );
    }
}

proof fn lemma_step_bits_computed(f: u8, steps: Seq<NodeId>, flags: Seq<u8>, k: int)
    requires
        f & COMPUTED != 0,
    ensures
        with_step_bits(f, steps, flags, k) & COMPUTED != 0,
    decreases k,
{
    if k > 0 {
        lemma_step_bits_computed(f, steps, flags, k - 1);
        lemma_or_keeps(with_step_bits(f, steps, flags, k - 1), bits(flags, steps[k - 1]) & INDEX_BINDING);
    }
}

proof fn lemma_bits_computed(n: Node, flags: Seq<u8>)
    ensures
        node_bits(n, flags) & COMPUTED != 0,
{
    lemma_own_computed(n);
    let kids = children(n);
    lemma_child_bits_computed(own_bits(n), kids, flags, kids.len() as int);
    lemma_step_bits_computed(
        with_child_bits(own_bits(n), kids, flags, kids.len() as int),
        path_kids(n),
        flags,
        path_kids(n).len() as int,
    );
}

proof fn lemma_path_kids(n: Node, j: int)
    requires
        0 <= j < path_kids(n).len(),
    ensures
        exists|k: int| 0 <= k < children(n).len() && children(n)[k] == path_kids(n)[j],
{
    match n {
        Node::Binary { .. } => {
            assert(children(n)[j] == path_kids(n)[j]);
        },
        Node::Sort { .. } => {
            assert(children(n)[j] == path_kids(n)[j]);
        },
        Node::Path { .. } => {
            assert(children(n)[j] == path_kids(n)[j]);
        },
        _ => {},
    }
}

proof fn lemma_child_bits_frame(f: u8, kids: Seq<NodeId>, a: Seq<u8>, b: Seq<u8>, k: int)
    requires
        k <= kids.len(),
        forall|j: int| 0 <= j < kids.len() ==> bits(a, #[trigger] kids[j]) == bits(b, kids[j]),
    ensures
        with_child_bits(f, kids, a, k) == with_child_bits(f, kids, b, k),
    decreases k,
{
    if k > 0 {
        lemma_child_bits_frame(f, kids, a, b, k - 1);
        assert(bits(a, kids[k - 1]) == bits(b, kids[k - 1]));
    }
}

proof fn lemma_step_bits_frame(f: u8, kids: Seq<NodeId>, a: Seq<u8>, b: Seq<u8>, k: int)
    requires
        k <= kids.len(),
        forall|j: int| 0 <= j < kids.len() ==> bits(a, #[trigger] kids[j]) == bits(b, kids[j]),
    ensures
        with_step_bits(f, kids, a, k) == with_step_bits(f, kids, b, k),
    decreases k,
{
    if k > 0 {
        lemma_step_bits_frame(f, kids, a, b, k - 1);
        assert(bits(a, kids[k - 1]) == bits(b, kids[k - 1]));
    }
}

/// The bits of a node rest on those of its children alone.
proof fn lemma_bits_frame(n: Node, a: Seq<u8>, b: Seq<u8>)
    requires
        forall|j: int| 0 <= j < children(n).len() ==> bits(a, #[trigger] children(n)[j]) == bits(b, children(n)[j]),
    ensures
        node_bits(n, a) == node_bits(n, b),
{
    let kids = children(n);
    let path = path_kids(n);
    lemma_child_bits_frame(own_bits(n), kids, a, b, kids.len() as int);
    assert forall|j: int| 0 <= j < path.len() implies bits(a, #[trigger] path[j]) == bits(b, path[j]) by {
        lemma_path_kids(n, j);
        let k = choose|k: int| 0 <= k < children(n).len() && children(n)[k] == path_kids(n)[j];
        assert(bits(a, kids[k]) == bits(b, kids[k]));
    }
    lemma_step_bits_frame(
        with_child_bits(own_bits(n), kids, a, kids.len() as int),
        path,
        a,
        b,
        path.len() as int,
    );
}

/// Recording the bits of a node whose children have been computed keeps the
/// table consistent.
proof fn lemma_recorded(nodes: Seq<Node>, a: Seq<u8>, b: Seq<u8>, id: NodeId)
    requires
        consistent(nodes, a),
        id.index < nodes.len(),
        a.len() <= b.len(),
        id.index < b.len(),
        kids_computed(nodes, a, children(nodes[id.index as int])),
        forall|j: int| 0 <= j < children(nodes[id.index as int]).len() ==> children(nodes[id.index as int])[j] != id,
        forall|i: int|
            0 <= i < b.len() ==> b[i] == if i == id.index {
                node_bits(nodes[id.index as int], a)
            } else if i < a.len() {
                a[i]
            } else {
                0
            },
    ensures
        consistent(nodes, b),
        flags_at(b, id) is Some,
        forall|k: NodeId| flags_at(a, k) is Some ==> flags_at(b, k) is Some,
{
    let n = nodes[id.index as int];
    assert(0u8 & 1u8 == 0) by (bit_vector);
    lemma_bits_computed(n, a);
    let v = node_bits(n, a);
    assert forall|k: NodeId| k != id implies flags_at(a, k) == flags_at(b, k) by {
        assert(k.index != id.index);
    }
    if flags_at(a, id) is Some {
        assert(settled_at(nodes, a, id.index));
        assert(flags_at(b, id) == flags_at(a, id));
    }
    assert forall|i: u32| i < nodes.len() && flags_at(b, NodeId { index: i }) is Some implies settled_at(nodes, b, i) by {
        let x = nodes[i as int];
        let kids = children(x);
        if i == id.index {
            assert forall|j: int| 0 <= j < kids.len() implies bits(a, #[trigger] kids[j]) == bits(b, kids[j]) by {}
            lemma_bits_frame(x, a, b);
            assert forall|j: int|
                0 <= j < kids.len() && (#[trigger] kids[j]).index < nodes.len() implies flags_at(b, kids[j]) is Some by {
                assert(flags_at(a, kids[j]) is Some);
            }
        } else {
            assert(flags_at(a, NodeId { index: i }) is Some);
            assert(settled_at(nodes, a, i));
            assert forall|j: int| 0 <= j < kids.len() implies bits(a, #[trigger] kids[j]) == bits(b, kids[j]) by {
                if kids[j] == id {
                    assert(flags_at(a, id) is Some);
                }
            }
            lemma_bits_frame(x, a, b);
            assert forall|j: int|
                0 <= j < kids.len() && (#[trigger] kids[j]).index < nodes.len() implies flags_at(b, kids[j]) is Some by {
                assert(flags_at(a, kids[j]) is Some);
            }
        }
    }
}

/// How many are false.
spec fn unseen(s: Seq<bool>) -> nat
    decreases s.len(),
{
    if s.len() == 0 {
        0
    } else {
        unseen(s.drop_last()) + (if s.last() {
            0nat
        } else {
            1nat
        })
    }
}

proof fn lemma_seen(s: Seq<bool>, i: int)
    requires
        0 <= i < s.len(),
        !s[i],
    ensures
        unseen(s.update(i, true)) < unseen(s),
    decreases s.len(),
{
    let t = s.update(i, true);
    if i == s.len() - 1 {
        assert(t.drop_last() =~= s.drop_last());
    } else {
        lemma_seen(s.drop_last(), i);
        assert(t.drop_last() =~= s.drop_last().update(i, true));
    }
}

/// The nodes still to be dealt with: one marked true waits for the nodes that
/// it refers to.
spec fn waiting(nodes: Seq<Node>, flags: Seq<u8>, stack: Seq<(NodeId, bool)>, p: int) -> bool {
    forall|k: int|
        0 <= k < children(nodes[stack[p].0.index as int]).len() && (#[trigger] children(
            nodes[stack[p].0.index as int],
        )[k]).index < nodes.len() ==> flags_at(flags, children(nodes[stack[p].0.index as int])[k]) is Some || above(
            stack,
            p,
            children(nodes[stack[p].0.index as int])[k],
        )
}

spec fn above(stack: Seq<(NodeId, bool)>, p: int, id: NodeId) -> bool {
    exists|q: int| p < q < stack.len() && (#[trigger] stack[q]).0 == id
}

spec fn in_order(
    nodes: Seq<Node>,
    flags: Seq<u8>,
    stack: Seq<(NodeId, bool)>,
    seen: Seq<bool>,
    rank: spec_fn(u32) -> nat,
) -> bool {
    &&& consistent(nodes, flags)
    &&& forall|p: int, q: int|
        0 <= p < q < stack.len() && (#[trigger] stack[p]).1 ==> rank((#[trigger] stack[q]).0.index) < rank(
            stack[p].0.index,
        )
    &&& forall|p: int| 0 <= p < stack.len() && (#[trigger] stack[p]).1 ==> waiting(nodes, flags, stack, p)
    &&& forall|i: u32|
        i < nodes.len() && #[trigger] seen[i as int] && flags_at(flags, NodeId { index: i }) is None ==> stacked(
            stack,
            i,
        )
}

spec fn stacked(stack: Seq<(NodeId, bool)>, i: u32) -> bool {
    exists|p: int| 0 <= p < stack.len() && (#[trigger] stack[p]) == ((NodeId { index: i }, true))
}

spec fn stack_ok(nodes: Seq<Node>, stack: Seq<(NodeId, bool)>, seen: Seq<bool>) -> bool {
    &&& seen.len() == nodes.len()
    &&& forall|p: int| 0 <= p < stack.len() ==> (#[trigger] stack[p]).0.index < nodes.len()
}

/// Dealing with a node that was not seen before.
proof fn lemma_opened(
    nodes: Seq<Node>,
    flags: Seq<u8>,
    stack: Seq<(NodeId, bool)>,
    seen: Seq<bool>,
    rank: spec_fn(u32) -> nat,
    next: Seq<(NodeId, bool)>,
)
    requires
        stack.len() > 0,
        stack_ok(nodes, stack, seen),
        ranked(nodes, rank),
        in_order(nodes, flags, stack, seen, rank),
        next.len() >= stack.len(),
        forall|p: int| 0 <= p < stack.len() - 1 ==> next[p] == stack[p],
        next[stack.len() - 1] == (stack.last().0, true),
        forall|q: int|
            stack.len() <= q < next.len() ==> !(#[trigger] next[q]).1 && exists|k: int|
                0 <= k < children(nodes[stack.last().0.index as int]).len() && (#[trigger] children(
                    nodes[stack.last().0.index as int],
                )[k]) == next[q].0 && next[q].0.index < nodes.len(),
        forall|k: int|
            0 <= k < children(nodes[stack.last().0.index as int]).len() && (#[trigger] children(
                nodes[stack.last().0.index as int],
            )[k]).index < nodes.len() && flags_at(flags, children(nodes[stack.last().0.index as int])[k]) is None
                ==> above(next, stack.len() - 1, children(nodes[stack.last().0.index as int])[k]),
    ensures
        in_order(nodes, flags, next, seen.update(stack.last().0.index as int, true), rank),
{
    let top = stack.len() - 1;
    let id = stack.last().0;
    let after = seen.update(id.index as int, true);
    assert forall|p: int, q: int| 0 <= p < q < next.len() && (#[trigger] next[p]).1 implies rank(
        (#[trigger] next[q]).0.index,
    ) < rank(next[p].0.index) by {
        if q >= stack.len() {
            let k = choose|k: int|
                0 <= k < children(nodes[id.index as int]).len() && (#[trigger] children(nodes[id.index as int])[k])
                    == next[q].0 && next[q].0.index < nodes.len();
            assert(rank(children(nodes[id.index as int])[k].index) < rank(id.index));
            if p < top {
                assert(stack[p].1);
                assert(rank(stack[top].0.index) < rank(stack[p].0.index));
            }
        } else {
            assert(stack[p].1);
            assert(stack[q].0 == next[q].0);
        }
    }
    assert forall|p: int| 0 <= p < next.len() && (#[trigger] next[p]).1 implies waiting(nodes, flags, next, p) by {
        if p < top {
            assert(waiting(nodes, flags, stack, p));
            assert forall|k: int|
                0 <= k < children(nodes[next[p].0.index as int]).len() && (#[trigger] children(
                    nodes[next[p].0.index as int],
                )[k]).index < nodes.len() implies flags_at(flags, children(nodes[next[p].0.index as int])[k]) is Some
                || above(next, p, children(nodes[next[p].0.index as int])[k]) by {
                let c = children(nodes[stack[p].0.index as int])[k];
                if flags_at(flags, c) is None {
                    assert(above(stack, p, c));
                    let q = choose|q: int| p < q < stack.len() && (#[trigger] stack[q]).0 == c;
                    assert(next[q].0 == c);
                }
            }
        }
    }
    assert forall|i: u32|
        i < nodes.len() && #[trigger] after[i as int] && flags_at(flags, NodeId { index: i }) is None implies stacked(
        next,
        i,
    ) by {
        if i == id.index {
            assert(next[top] == (NodeId { index: i }, true));
        } else {
            assert(seen[i as int]);
            let p = choose|p: int| 0 <= p < stack.len() && (#[trigger] stack[p]) == ((NodeId { index: i }, true));
            assert(p != top);
            assert(next[p] == (NodeId { index: i }, true));
        }
    }
}

/// Fill in the bits of every node that can be reached from a root.
fn compute_static_flags(arena: &mut AstArena, root: NodeId)
    ensures
        final(arena).nodes == old(arena).nodes,
        acyclic(old(arena).all()) && consistent(old(arena).all(), old(arena).flags@) ==> {
            &&& consistent(old(arena).all(), final(arena).flags@)
            &&& root.index < old(arena).all().len() ==> flags_at(final(arena).flags@, root) is Some
        },
{
    let ghost nodes = arena.all();
    let ghost good = acyclic(nodes) && consistent(nodes, arena.flags@);
    let ghost rank = choose|rank: spec_fn(u32) -> nat| ranked(nodes, rank);
    let n: usize = arena.len();
    if root.index as usize >= n {
        return;
    }
    let mut seen: Vec<bool> = Vec::new();
    while seen.len() < n
        invariant
            seen.len() <= n,
            forall|i: int| 0 <= i < seen@.len() ==> !seen@[i],
        decreases n - seen.len(),
    {
        seen.push(false);
    }
    let mut stack: Vec<(NodeId, bool)> = Vec::new();
    stack.push((root, false));
    assert(good ==> in_order(nodes, arena.flags@, stack@, seen@, rank));
    assert(stack@[0].0 == root);
    while stack.len() > 0
        invariant
            arena.nodes == old(arena).nodes,
            nodes == arena.all(),
            n == nodes.len(),
            root.index < n,
            good == (acyclic(nodes) && consistent(nodes, old(arena).flags@)),
            good ==> ranked(nodes, rank),
            stack_ok(nodes, stack@, seen@),
            good ==> in_order(nodes, arena.flags@, stack@, seen@, rank),
            good ==> flags_at(arena.flags@, root) is Some || above(stack@, -1, root),
        decreases unseen(seen@), stack.len(),
    {
        let ghost before = stack@;
        let top: usize = stack.len() - 1;
        let (id, expanded) = stack[top];
        if expanded {
            let f: u8 = compute_bits(arena, id);
            let ghost old_flags = arena.flags@;
            stack.pop();
            arena.set_node_static_flags(id, f);
            proof {
                if good {
                    lemma_closed(nodes, old_flags, before, seen@, rank, arena.flags@, root);
                    assert(stack@ =~= before.drop_last());
                }
            }
        } else if arena.node_static_flags(id).is_some() || seen[id.index as usize] {
            stack.pop();
            proof {
                assert(stack@ =~= before.drop_last());
                if good {
                    lemma_skipped(nodes, arena.flags@, before, seen@, rank, root);
                }
            }
        } else {
            proof {
                lemma_seen(seen@, id.index as int);
            }
            seen.set(id.index as usize, true);
            stack.set(top, (id, true));
            let mut kids: Vec<NodeId> = Vec::new();
            push_children(arena.get(id), &mut kids);
            assert(kids@ =~= children(nodes[id.index as int]));
            let mut k: usize = 0;
            while k < kids.len()
                invariant
                    k <= kids.len(),
                    nodes == arena.all(),
                    n == nodes.len(),
                    id == before.last().0,
                    before.len() == top + 1,
                    id.index < nodes.len(),
                    kids@ == children(nodes[id.index as int]),
                    stack@.len() >= before.len(),
                    stack_ok(nodes, stack@, seen@),
                    forall|p: int| 0 <= p < top ==> stack@[p] == before[p],
                    stack@[top as int] == (id, true),
                    forall|q: int|
                        before.len() <= q < stack@.len() ==> !(#[trigger] stack@[q]).1 && exists|j: int|
                            0 <= j < children(nodes[id.index as int]).len() && (#[trigger] children(
                                nodes[id.index as int],
                            )[j]) == stack@[q].0 && stack@[q].0.index < nodes.len(),
                    forall|j: int|
                        0 <= j < k && (#[trigger] kids@[j]).index < nodes.len() && flags_at(
                            arena.flags@,
                            kids@[j],
                        ) is None ==> above(stack@, top as int, kids@[j]),
                decreases kids.len() - k,
            {
                let kid: NodeId = kids[k];
                let ghost prev = stack@;
                if (kid.index as usize) < n && arena.node_static_flags(kid).is_none() {
                    stack.push((kid, false));
                    proof {
                        assert(stack@[prev.len() as int].0 == kid);
                        assert(children(nodes[id.index as int])[k as int] == kid);
                        assert forall|j: int|
                            0 <= j < k + 1 && (#[trigger] kids@[j]).index < nodes.len() && flags_at(
                                arena.flags@,
                                kids@[j],
                            ) is None implies above(stack@, top as int, kids@[j]) by {
                            if j < k {
                                assert(above(prev, top as int, kids@[j]));
                                let q = choose|q: int| top < q < prev.len() && (#[trigger] prev[q]).0 == kids@[j];
                                assert(stack@[q].0 == kids@[j]);
                            }
                        }
                    }
                }
                k = k + 1;
            }
            proof {
                if good {
                    lemma_opened(
                        nodes,
                        arena.flags@,
                        before,
                        seen@.update(id.index as int, false),
                        rank,
                        stack@,
                    );
                    assert(seen@.update(id.index as int, false).update(id.index as int, true) =~= seen@);
                    if flags_at(arena.flags@, root) is None {
                        let q = choose|q: int| -1 < q < before.len() && (#[trigger] before[q]).0 == root;
                        assert(stack@[q].0 == root);
                    }
                }
            }
        }
    }
}

/// A node on top of the stack that needs nothing more.
proof fn lemma_skipped(
    nodes: Seq<Node>,
    flags: Seq<u8>,
    stack: Seq<(NodeId, bool)>,
    seen: Seq<bool>,
    rank: spec_fn(u32) -> nat,
    root: NodeId,
)
    requires
        stack.len() > 0,
        stack_ok(nodes, stack, seen),
        in_order(nodes, flags, stack, seen, rank),
        !stack.last().1,
        flags_at(flags, stack.last().0) is Some || seen[stack.last().0.index as int],
        flags_at(flags, root) is Some || above(stack, -1, root),
    ensures
        in_order(nodes, flags, stack.drop_last(), seen, rank),
        flags_at(flags, root) is Some || above(stack.drop_last(), -1, root),
{
    let next = stack.drop_last();
    let top = stack.len() - 1;
    let id = stack.last().0;
    if flags_at(flags, id) is None {
        assert(id == NodeId { index: id.index });
        assert(stacked(stack, id.index));
        let p = choose|p: int| 0 <= p < stack.len() && (#[trigger] stack[p]) == ((NodeId { index: id.index }, true));
        assert(stack[p].1 && p < top);
        assert(rank(stack[top].0.index) < rank(stack[p].0.index));
    }
    lemma_popped(nodes, flags, flags, stack, seen, rank, root);
}

/// What holds of the stack without its top, once the node there is computed.
proof fn lemma_popped(
    nodes: Seq<Node>,
    a: Seq<u8>,
    b: Seq<u8>,
    stack: Seq<(NodeId, bool)>,
    seen: Seq<bool>,
    rank: spec_fn(u32) -> nat,
    root: NodeId,
)
    requires
        stack.len() > 0,
        stack_ok(nodes, stack, seen),
        in_order(nodes, a, stack, seen, rank),
        consistent(nodes, b),
        forall|k: NodeId| flags_at(a, k) is Some ==> flags_at(b, k) is Some,
        flags_at(b, stack.last().0) is Some,
        flags_at(a, root) is Some || above(stack, -1, root),
    ensures
        in_order(nodes, b, stack.drop_last(), seen, rank),
        flags_at(b, root) is Some || above(stack.drop_last(), -1, root),
{
    let next = stack.drop_last();
    let top = stack.len() - 1;
    assert forall|p: int, q: int| 0 <= p < q < next.len() && (#[trigger] next[p]).1 implies rank(
        (#[trigger] next[q]).0.index,
    ) < rank(next[p].0.index) by {
        assert(stack[p].1 && stack[q] == next[q]);
    }
    assert forall|p: int| 0 <= p < next.len() && (#[trigger] next[p]).1 implies waiting(nodes, b, next, p) by {
        assert(stack[p].1);
        assert(waiting(nodes, a, stack, p));
        assert forall|k: int|
            0 <= k < children(nodes[next[p].0.index as int]).len() && (#[trigger] children(
                nodes[next[p].0.index as int],
            )[k]).index < nodes.len() implies flags_at(b, children(nodes[next[p].0.index as int])[k]) is Some || above(
            next,
            p,
            children(nodes[next[p].0.index as int])[k],
        ) by {
            let c = children(nodes[stack[p].0.index as int])[k];
            if flags_at(b, c) is None {
                assert(flags_at(a, c) is None);
                assert(above(stack, p, c));
                let q = choose|q: int| p < q < stack.len() && (#[trigger] stack[q]).0 == c;
                assert(q != top);
                assert(next[q].0 == c);
            }
        }
    }
    assert forall|i: u32|
        i < nodes.len() && #[trigger] seen[i as int] && flags_at(b, NodeId { index: i }) is None implies stacked(
        next,
        i,
    ) by {
        assert(flags_at(a, NodeId { index: i }) is None);
        let p = choose|p: int| 0 <= p < stack.len() && (#[trigger] stack[p]) == ((NodeId { index: i }, true));
        assert(p != top);
        assert(next[p] == (NodeId { index: i }, true));
    }
    if flags_at(b, root) is None {
        let q = choose|q: int| -1 < q < stack.len() && (#[trigger] stack[q]).0 == root;
        assert(q != top);
        assert(next[q].0 == root);
    }
}

/// A node on top of the stack whose children have all been computed.
proof fn lemma_closed(
    nodes: Seq<Node>,
    a: Seq<u8>,
    stack: Seq<(NodeId, bool)>,
    seen: Seq<bool>,
    rank: spec_fn(u32) -> nat,
    b: Seq<u8>,
    root: NodeId,
)
    requires
        stack.len() > 0,
        stack_ok(nodes, stack, seen),
        ranked(nodes, rank),
        in_order(nodes, a, stack, seen, rank),
        stack.last().1,
        a.len() <= b.len(),
        stack.last().0.index < b.len(),
        forall|i: int|
            0 <= i < b.len() ==> b[i] == if i == stack.last().0.index {
                node_bits(nodes[stack.last().0.index as int], a)
            } else if i < a.len() {
                a[i]
            } else {
                0
            },
        flags_at(a, root) is Some || above(stack, -1, root),
    ensures
        in_order(nodes, b, stack.drop_last(), seen, rank),
        flags_at(b, root) is Some || above(stack.drop_last(), -1, root),
{
    let top = stack.len() - 1;
    let id = stack.last().0;
    let kids = children(nodes[id.index as int]);
    assert(waiting(nodes, a, stack, top));
    assert forall|k: int| 0 <= k < kids.len() && (#[trigger] kids[k]).index < nodes.len() implies flags_at(
        a,
        kids[k],
    ) is Some by {
        if flags_at(a, kids[k]) is None {
            assert(above(stack, top, kids[k]));
        }
    }
    assert forall|j: int| 0 <= j < kids.len() implies kids[j] != id by {
        if kids[j] == id {
            assert(rank(children(nodes[id.index as int])[j].index) < rank(id.index));
        }
    }
    lemma_recorded(nodes, a, b, id);
    lemma_popped(nodes, a, b, stack, seen, rank, root);
}

// ── Entry ────────────────────────────────────────────────────────────────────

/// How deep a tree of some nodes can be, with the steps that processing takes
/// at each.
pub open spec fn room_for(n: nat) -> nat {
    2 * n + 2
}

/// Prepare a syntax tree for evaluation, after it was parsed: the root may be
/// another node afterwards. The bits of its nodes are filled in.
pub fn process_ast(arena: &mut AstArena, node: NodeId) -> (r: Result<NodeId, JsonataError>)
    ensures
        match r {
            Ok(root) => {
                &&& processed(old(arena).all(), node, room_for(old(arena).all().len())) == Ok::<
                    (Seq<Node>, NodeId),
                    Seq<char>,
                >((final(arena).all(), root))
                &&& acyclic(final(arena).all()) && consistent(final(arena).all(), old(arena).flags@) ==> {
                    &&& consistent(final(arena).all(), final(arena).flags@)
                    &&& root.index < final(arena).all().len() ==> flags_at(final(arena).flags@, root) is Some
                }
            },
            Err(e) => processed(old(arena).all(), node, room_for(old(arena).all().len())) == Err::<
                (Seq<Node>, NodeId),
                Seq<char>,
            >(e.code@) && fault(e) == bare_fault(e.code@),
        },
{
    let room: u128 = arena.len() as u128 * 2 + 2;
    match process_node(arena, node, room) {
        Ok(root) => {
            compute_static_flags(arena, root);
            Ok(root)
        },
        Err(e) => Err(e),
    }
}

} // verus!
