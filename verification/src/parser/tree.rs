//! What parsing makes is a tree.
//!
//! Nodes get numbers so that those of the nodes that a node is made of lie
//! between two bounds, below its own number, and apart from each other.
use vstd::prelude::*;

use super::ast::{
    children, no_node, node_at, optional_id, pair_ids, BinaryOp, Group, Node, NodeId, SortTerm, UnaryOp, MAX_NODES,
};
use super::{
    advanced, advanced_infix, advanced_prefix, array, array_items, binary_node, binding, block, block_items,
    bound_variable, call, call_args, changed, condition, eats, expression, focus, full_operation, group_by, grouped,
    grown, index, infixes, lambda, lambda_head, lambda_params, leaf, led, left_over, name_node, negated_literal,
    negation, next, nud, object, object_pairs, operation, optional_signature, paired, parsed, power, signature,
    signature_rest, sort, sort_terms, subscript, taken, transform, transform_end, unary_node, variable_node, with_focus,
    with_group, with_index, with_keep_array, Parsed, Readings, State,
};
use super::process::{acyclic, ranked};
use crate::lexer::{plain, TokenType};

verus! {

// ── Trees ────────────────────────────────────────────────────────────────────

/// Bounds of the numbers of a node and of what it is made of: its own number is
/// the upper one.
pub type Spans = Seq<(int, int)>;

/// Whether two nodes, if both are there, share no number.
pub open spec fn apart(spans: Spans, c: NodeId, d: NodeId) -> bool {
    ||| c == no_node()
    ||| d == no_node()
    ||| spans[c.index as int].1 < spans[d.index as int].0
    ||| spans[d.index as int].1 < spans[c.index as int].0
}

/// Whether a node, if it is there, is one from `a` on with its numbers below
/// that of another and within its bounds.
pub open spec fn within(nodes: Seq<Node>, spans: Spans, a: int, i: int, c: NodeId) -> bool {
    ||| c == no_node()
    ||| {
        &&& a <= c.index < nodes.len()
        &&& spans[i].0 <= spans[c.index as int].0
        &&& spans[c.index as int].1 < spans[i].1
    }
}

/// Whether a node is made of nodes that come below it and apart from each other.
pub open spec fn composed(nodes: Seq<Node>, spans: Spans, a: int, i: int) -> bool {
    let kids = children(nodes[i]);
    &&& a <= spans[i].0 <= spans[i].1 < nodes.len()
    &&& forall|k: int| 0 <= k < kids.len() ==> within(nodes, spans, a, i, #[trigger] kids[k])
    &&& forall|k: int, m: int| 0 <= k < m < kids.len() ==> apart(spans, #[trigger] kids[k], #[trigger] kids[m])
}

/// Whether the nodes from `a` on are made of each other only, as in trees.
pub open spec fn nested(nodes: Seq<Node>, spans: Spans, a: int) -> bool {
    &&& 0 <= a <= nodes.len() <= MAX_NODES
    &&& spans.len() == nodes.len()
    &&& forall|i: int| a <= i < nodes.len() ==> #[trigger] composed(nodes, spans, a, i)
}

/// Whether the nodes from `a` on are the tree of one of them.
pub open spec fn whole(nodes: Seq<Node>, spans: Spans, a: int, id: NodeId) -> bool {
    &&& nested(nodes, spans, a)
    &&& a <= id.index < nodes.len()
    &&& spans[id.index as int] == (a, nodes.len() - 1)
    &&& forall|i: int| a <= i < nodes.len() && i != id.index ==> (#[trigger] spans[i]).1 < nodes.len() - 1
}

/// Whether among the nodes from `a` on there are trees of some, one after
/// another.
pub open spec fn row(nodes: Seq<Node>, spans: Spans, a: int, ids: Seq<NodeId>) -> bool {
    &&& nested(nodes, spans, a)
    &&& forall|k: int| 0 <= k < ids.len() ==> a <= (#[trigger] ids[k]).index < nodes.len()
    &&& forall|k: int, m: int|
        0 <= k < m < ids.len() ==> spans[(#[trigger] ids[k]).index as int].1 < spans[(#[trigger] ids[m]).index as int].0
}

/// Whether the nodes before `a` are the same.
pub open spec fn kept(before: Seq<Node>, after: Seq<Node>, a: int) -> bool {
    &&& a <= before.len()
    &&& a <= after.len()
    &&& forall|i: int| 0 <= i < a ==> #[trigger] after[i] == before[i]
}

/// Whether nodes are those of the tree of one of them; without nodes, of none.
pub open spec fn is_tree(nodes: Seq<Node>, root: NodeId) -> bool {
    if nodes.len() == 0 {
        root == no_node()
    } else {
        exists|spans: Spans| whole(nodes, spans, 0, root)
    }
}

// ── Trees put together ───────────────────────────────────────────────────────

/// Whether the nodes from `a` to `p` are the tree of one of them, and those that
/// follow have nothing to do with it.
spec fn headed(nodes: Seq<Node>, spans: Spans, a: int, p: int, id: NodeId) -> bool {
    &&& a <= id.index < p <= nodes.len()
    &&& spans[id.index as int] == (a, p - 1)
    &&& forall|i: int| a <= i < p && i != id.index ==> (#[trigger] spans[i]).1 < p - 1
    &&& forall|i: int| p <= i < nodes.len() ==> (#[trigger] spans[i]).0 >= p
    &&& forall|i: int, k: int|
        a <= i < p && 0 <= k < children(nodes[i]).len() ==> (#[trigger] children(nodes[i])[k]) == no_node()
            || children(nodes[i])[k].index < p
}

proof fn lemma_headed(nodes: Seq<Node>, spans: Spans, a: int, id: NodeId)
    requires
        whole(nodes, spans, a, id),
    ensures
        headed(nodes, spans, a, nodes.len() as int, id),
{
    assert forall|i: int, k: int| a <= i < nodes.len() && 0 <= k < children(nodes[i]).len() implies (#[trigger] children(
        nodes[i],
    )[k]) == no_node() || children(nodes[i])[k].index < nodes.len() by {
        assert(composed(nodes, spans, a, i));
    }
}

/// Whether a node is made of some of a list, each once.
spec fn made_of(n: Node, ids: Seq<NodeId>) -> bool {
    let kids = children(n);
    &&& forall|k: int| 0 <= k < kids.len() ==> #[trigger] kids[k] == no_node() || ids.contains(kids[k])
    &&& forall|k: int, m: int|
        0 <= k < m < kids.len() && #[trigger] kids[k] != no_node() ==> kids[k] != #[trigger] kids[m]
}

/// Nothing yet.
proof fn lemma_no_row(nodes: Seq<Node>) -> (spans: Spans)
    requires
        nodes.len() <= MAX_NODES,
    ensures
        row(nodes, spans, nodes.len() as int, Seq::empty()),
{
    Seq::new(nodes.len(), |i: int| (0int, 0int))
}

/// A tree alone is a row of one.
proof fn lemma_row_of_one(nodes: Seq<Node>, spans: Spans, a: int, id: NodeId)
    requires
        whole(nodes, spans, a, id),
    ensures
        row(nodes, spans, a, seq![id]),
{
}

/// A tree after others.
proof fn lemma_row_grows(
    before: Seq<Node>,
    s1: Spans,
    a: int,
    ids: Seq<NodeId>,
    after: Seq<Node>,
    s2: Spans,
    id: NodeId,
) -> (spans: Spans)
    requires
        row(before, s1, a, ids),
        kept(before, after, before.len() as int),
        whole(after, s2, before.len() as int, id),
    ensures
        row(after, spans, a, ids.push(id)),
        forall|p: int, h: NodeId| #[trigger] headed(before, s1, a, p, h) ==> headed(after, spans, a, p, h),
{
    let n = before.len() as int;
    let spans = Seq::new(
        after.len(),
        |i: int|
            if i < n {
                s1[i]
            } else {
                s2[i]
            },
    );
    assert forall|i: int| a <= i < after.len() implies #[trigger] composed(after, spans, a, i) by {
        let kids = children(after[i]);
        if i < n {
            assert(composed(before, s1, a, i));
            assert(after[i] == before[i]);
            assert forall|k: int| 0 <= k < kids.len() implies within(after, spans, a, i, #[trigger] kids[k]) by {
                assert(within(before, s1, a, i, kids[k]));
            }
            assert forall|k: int, m: int| 0 <= k < m < kids.len() implies apart(
                spans,
                #[trigger] kids[k],
                #[trigger] kids[m],
            ) by {
                assert(apart(s1, kids[k], kids[m]));
                assert(within(before, s1, a, i, kids[k]));
                assert(within(before, s1, a, i, kids[m]));
            }
        } else {
            assert(composed(after, s2, n, i));
            assert forall|k: int| 0 <= k < kids.len() implies within(after, spans, a, i, #[trigger] kids[k]) by {
                assert(within(after, s2, n, i, kids[k]));
            }
            assert forall|k: int, m: int| 0 <= k < m < kids.len() implies apart(
                spans,
                #[trigger] kids[k],
                #[trigger] kids[m],
            ) by {
                assert(apart(s2, kids[k], kids[m]));
                assert(within(after, s2, n, i, kids[k]));
                assert(within(after, s2, n, i, kids[m]));
            }
        }
    }
    let all = ids.push(id);
    assert forall|k: int, m: int| 0 <= k < m < all.len() implies spans[(#[trigger] all[k]).index as int].1 < spans[(
    #[trigger] all[m]).index as int].0 by {
        assert(all[k] == ids[k]);
        if m < ids.len() {
            assert(all[m] == ids[m]);
        } else {
            assert(composed(before, s1, a, ids[k].index as int));
        }
    }
    assert forall|p: int, h: NodeId| #[trigger] headed(before, s1, a, p, h) implies headed(after, spans, a, p, h) by {
        assert forall|i: int| p <= i < after.len() implies (#[trigger] spans[i]).0 >= p by {
            if i >= n {
                assert(composed(after, s2, n, i));
            } else {
                assert(s1[i].0 >= p);
            }
        }
        assert forall|i: int, k: int| a <= i < p && 0 <= k < children(after[i]).len() implies (#[trigger] children(
            after[i],
        )[k]) == no_node() || children(after[i])[k].index < p by {
            assert(after[i] == before[i]);
            assert(children(before[i])[k] == no_node() || children(before[i])[k].index < p);
        }
    }
    spans
}

/// A node made of what stands in a row.
proof fn lemma_parent(nodes: Seq<Node>, s1: Spans, a: int, ids: Seq<NodeId>, n: Node) -> (spans: Spans)
    requires
        row(nodes, s1, a, ids),
        made_of(n, ids),
        nodes.len() < MAX_NODES,
    ensures
        whole(nodes.push(n), spans, a, NodeId { index: nodes.len() as u32 }),
{
    let len = nodes.len() as int;
    let after = nodes.push(n);
    let spans = s1.push((a, len));
    assert forall|i: int| a <= i < after.len() implies #[trigger] composed(after, spans, a, i) by {
        let kids = children(after[i]);
        if i < len {
            assert(composed(nodes, s1, a, i));
            assert forall|k: int| 0 <= k < kids.len() implies within(after, spans, a, i, #[trigger] kids[k]) by {
                assert(within(nodes, s1, a, i, kids[k]));
            }
            assert forall|k: int, m: int| 0 <= k < m < kids.len() implies apart(
                spans,
                #[trigger] kids[k],
                #[trigger] kids[m],
            ) by {
                assert(apart(s1, kids[k], kids[m]));
                assert(within(nodes, s1, a, i, kids[k]));
                assert(within(nodes, s1, a, i, kids[m]));
            }
        } else {
            assert(after[i] == n);
            assert forall|k: int| 0 <= k < kids.len() implies within(after, spans, a, i, #[trigger] kids[k]) by {
                if kids[k] != no_node() {
                    let x = choose|x: int| 0 <= x < ids.len() && ids[x] == kids[k];
                    assert(ids[x].index < nodes.len());
                    assert(composed(nodes, s1, a, ids[x].index as int));
                }
            }
            assert forall|k: int, m: int| 0 <= k < m < kids.len() implies apart(
                spans,
                #[trigger] kids[k],
                #[trigger] kids[m],
            ) by {
                if kids[k] != no_node() && kids[m] != no_node() {
                    let x = choose|x: int| 0 <= x < ids.len() && ids[x] == kids[k];
                    let y = choose|y: int| 0 <= y < ids.len() && ids[y] == kids[m];
                    assert(x != y);
                    assert(ids[x].index < nodes.len() && ids[y].index < nodes.len());
                }
            }
        }
    }
    assert forall|i: int| a <= i < after.len() && i != len implies (#[trigger] spans[i]).1 < len by {
        assert(composed(nodes, s1, a, i));
    }
    spans
}

/// The node of a tree changed in what it is not made of.
proof fn lemma_same_kids(nodes: Seq<Node>, spans: Spans, a: int, id: NodeId, n: Node)
    requires
        whole(nodes, spans, a, id),
        children(n) == children(nodes[id.index as int]),
    ensures
        whole(changed(nodes, id, n), spans, a, id),
{
    let after = changed(nodes, id, n);
    assert forall|i: int| a <= i < after.len() implies #[trigger] composed(after, spans, a, i) by {
        assert(composed(nodes, spans, a, i));
        assert(children(after[i]) == children(nodes[i]));
        let kids = children(after[i]);
        assert forall|k: int| 0 <= k < kids.len() implies within(after, spans, a, i, #[trigger] kids[k]) by {
            assert(within(nodes, spans, a, i, kids[k]));
        }
    }
}

/// The node of a tree made of what stands in a row after it, too: its number
/// becomes the last.
proof fn lemma_taken_in(nodes: Seq<Node>, s1: Spans, a: int, p: int, id: NodeId, more: Seq<NodeId>, n: Node) -> (spans:
    Spans)
    requires
        row(nodes, s1, a, seq![id] + more),
        headed(nodes, s1, a, p, id),
        children(n) == children(nodes[id.index as int]) + more,
    ensures
        whole(changed(nodes, id, n), spans, a, id),
{
    let len = nodes.len() as int;
    let after = changed(nodes, id, n);
    let spans = Seq::new(
        nodes.len(),
        |i: int|
            if i == id.index {
                (a, len - 1)
            } else if i < p {
                s1[i]
            } else {
                (s1[i].0 - 1, s1[i].1 - 1)
            },
    );
    let ids = seq![id] + more;
    assert(ids[0] == id);
    assert forall|k: int| 0 <= k < more.len() implies (#[trigger] more[k]).index >= p by {
        assert(ids[k + 1] == more[k]);
        assert(composed(nodes, s1, a, more[k].index as int));
    }
    assert forall|i: int| a <= i < after.len() implies #[trigger] composed(after, spans, a, i) by {
        assert(composed(nodes, s1, a, i));
        let kids = children(after[i]);
        let old_kids = children(nodes[i]);
        if i == id.index {
            assert forall|k: int| 0 <= k < kids.len() implies within(after, spans, a, i, #[trigger] kids[k]) by {
                if k < old_kids.len() {
                    assert(kids[k] == old_kids[k]);
                    assert(within(nodes, s1, a, i, old_kids[k]));
                    if kids[k] != no_node() {
                        assert(composed(nodes, s1, a, kids[k].index as int));
                    }
                } else {
                    let m = more[k - old_kids.len()];
                    assert(kids[k] == m);
                    assert(ids[1 + k - old_kids.len()] == m);
                    assert(composed(nodes, s1, a, m.index as int));
                }
            }
            assert forall|k: int, m: int| 0 <= k < m < kids.len() implies apart(
                spans,
                #[trigger] kids[k],
                #[trigger] kids[m],
            ) by {
                let ol = old_kids.len() as int;
                if kids[k] != no_node() && kids[m] != no_node() {
                    if m < ol {
                        assert(kids[k] == old_kids[k] && kids[m] == old_kids[m]);
                        assert(apart(s1, old_kids[k], old_kids[m]));
                        assert(within(nodes, s1, a, i, old_kids[k]));
                        assert(within(nodes, s1, a, i, old_kids[m]));
                        assert(old_kids[k].index < p && old_kids[m].index < p);
                    } else if k >= ol {
                        assert(kids[k] == more[k - ol] && kids[m] == more[m - ol]);
                        assert(ids[1 + k - ol] == more[k - ol]);
                        assert(ids[1 + m - ol] == more[m - ol]);
                    } else {
                        assert(kids[k] == old_kids[k]);
                        assert(within(nodes, s1, a, i, old_kids[k]));
                        assert(old_kids[k].index < p);
                        assert(kids[m] == more[m - ol]);
                        assert(ids[1 + m - ol] == more[m - ol]);
                        assert(s1[kids[m].index as int].0 >= p);
                    }
                }
            }
        } else {
            assert(after[i] == nodes[i]);
            assert forall|k: int| 0 <= k < kids.len() implies within(after, spans, a, i, #[trigger] kids[k]) by {
                assert(within(nodes, s1, a, i, kids[k]));
                if kids[k] != no_node() {
                    assert(composed(nodes, s1, a, kids[k].index as int));
                    if i < p {
                        assert(kids[k].index < p);
                    } else if kids[k].index < p {
                        assert(s1[i].0 >= p);
                        assert(s1[kids[k].index as int].1 < p);
                    }
                }
            }
            assert forall|k: int, m: int| 0 <= k < m < kids.len() implies apart(
                spans,
                #[trigger] kids[k],
                #[trigger] kids[m],
            ) by {
                assert(apart(s1, kids[k], kids[m]));
                assert(within(nodes, s1, a, i, kids[k]));
                assert(within(nodes, s1, a, i, kids[m]));
                if kids[k] != no_node() && kids[m] != no_node() {
                    if i < p {
                        assert(kids[k].index < p && kids[m].index < p);
                    } else {
                        assert(composed(nodes, s1, a, kids[k].index as int));
                        assert(composed(nodes, s1, a, kids[m].index as int));
                        assert(kids[k].index >= p && kids[m].index >= p);
                    }
                }
            }
        }
    }
    assert forall|i: int| a <= i < after.len() && i != id.index implies (#[trigger] spans[i]).1 < len - 1 by {
        assert(composed(nodes, s1, a, i));
        assert(s1[i].1 < len);
    }
    spans
}

// ── What the grammar makes ───────────────────────────────────────────────────

/// Whether what was parsed is the tree of a node, made of the nodes from `a` on.
spec fn makes(before: Seq<Node>, r: Parsed<NodeId>, a: int, spans: Spans) -> bool {
    match r {
        Ok((st, id)) => kept(before, st.nodes, a) && whole(st.nodes, spans, a, id),
        Err(_) => true,
    }
}

/// Whether nodes that were made stand in a row after others, which stay as they
/// were.
spec fn lines_up(before: Seq<Node>, s0: Spans, st: State, a: int, spans: Spans, ids: Seq<NodeId>) -> bool {
    &&& kept(before, st.nodes, before.len() as int)
    &&& row(st.nodes, spans, a, ids)
    &&& forall|p: int, h: NodeId| #[trigger] headed(before, s0, a, p, h) ==> headed(st.nodes, spans, a, p, h)
}

proof fn lemma_next(st: State, infix: bool)
    ensures
        next(st, infix) matches Ok(s1) ==> s1.nodes == st.nodes,
{
    reveal(next);
}

/// A token more or less makes no node.
proof fn lemma_steps(st: State)
    ensures
        advanced(st) matches Ok(s1) ==> s1.nodes == st.nodes,
        advanced_prefix(st) matches Ok(s1) ==> s1.nodes == st.nodes,
        advanced_infix(st) matches Ok(s1) ==> s1.nodes == st.nodes,
        forall|t: TokenType, i: bool| (#[trigger] taken(st, t, i)) matches Ok(s1) ==> s1.nodes == st.nodes,
{
    lemma_next(st, st.infix);
    lemma_next(st, false);
    lemma_next(st, true);
}

/// A node made of what stands in a row.
proof fn lemma_grown(st: State, n: Node, a: int, ids: Seq<NodeId>, s0: Spans) -> (spans: Spans)
    requires
        row(st.nodes, s0, a, ids),
        made_of(n, ids),
    ensures
        makes(st.nodes, grown(st, n), a, spans),
{
    if st.nodes.len() < MAX_NODES {
        lemma_parent(st.nodes, s0, a, ids, n)
    } else {
        s0
    }
}

/// A node made of nothing.
proof fn lemma_grown_leaf(st: State, n: Node) -> (spans: Spans)
    requires
        st.nodes.len() <= MAX_NODES,
        children(n).len() == 0,
    ensures
        makes(st.nodes, grown(st, n), st.nodes.len() as int, spans),
{
    let s0 = lemma_no_row(st.nodes);
    lemma_grown(st, n, st.nodes.len() as int, Seq::empty(), s0)
}

proof fn lemma_leaf_token(st: State, n: Node) -> (spans: Spans)
    requires
        st.nodes.len() <= MAX_NODES,
        children(n).len() == 0,
    ensures
        makes(st.nodes, leaf(st, n), st.nodes.len() as int, spans),
{
    lemma_steps(st);
    match advanced_infix(st) {
        Ok(s1) => lemma_grown_leaf(s1, n),
        Err(_) => Seq::empty(),
    }
}

/// A tree that was made after a row joins it.
proof fn lemma_joins(before: Seq<Node>, s0: Spans, a: int, ids: Seq<NodeId>, r: Parsed<NodeId>, s1: Spans) -> (spans:
    Spans)
    requires
        row(before, s0, a, ids),
        makes(before, r, before.len() as int, s1),
    ensures
        r matches Ok((st, id)) ==> lines_up(before, s0, st, a, spans, ids.push(id)),
{
    match r {
        Ok((st, id)) => lemma_row_grows(before, s0, a, ids, st.nodes, s1, id),
        Err(_) => s0,
    }
}

proof fn lemma_lines_on(n0: Seq<Node>, s0: Spans, s1: State, sp1: Spans, s2: State, sp2: Spans, a: int, ids: Seq<NodeId>, all: Seq<NodeId>)
    requires
        lines_up(n0, s0, s1, a, sp1, ids),
        lines_up(s1.nodes, sp1, s2, a, sp2, all),
    ensures
        lines_up(n0, s0, s2, a, sp2, all),
{
    assert forall|i: int| 0 <= i < n0.len() implies #[trigger] s2.nodes[i] == n0[i] by {
        assert(s1.nodes[i] == n0[i]);
    }
}

proof fn lemma_expression(st: State, rbp: int) -> (spans: Spans)
    requires
        st.nodes.len() <= MAX_NODES,
    ensures
        makes(st.nodes, expression(st, rbp), st.nodes.len() as int, spans),
    decreases left_over(st), 2int,
{
    let a = st.nodes.len() as int;
    let s0 = State { depth: st.depth + 1, ..st };
    let sp = lemma_nud(s0);
    match nud(s0) {
        Ok((s1, left)) => if eats(st, s1) {
            lemma_infixes(s1, left, rbp, a, sp)
        } else {
            sp
        },
        Err(_) => sp,
    }
}

proof fn lemma_infixes(st: State, left: NodeId, rbp: int, a: int, s0: Spans) -> (spans: Spans)
    requires
        whole(st.nodes, s0, a, left),
    ensures
        makes(st.nodes, infixes(st, left, rbp), a, spans),
    decreases left_over(st), 2int,
{
    if power(st.token.typ) > rbp {
        let sp = lemma_led(st, left, a, s0);
        match led(st, left) {
            Ok((s1, id)) => if eats(st, s1) {
                lemma_infixes(s1, id, rbp, a, sp)
            } else {
                sp
            },
            Err(_) => sp,
        }
    } else {
        s0
    }
}

/// An expression that is parsed after a row joins it.
proof fn lemma_item(st: State, rbp: int, a: int, ids: Seq<NodeId>, s0: Spans) -> (spans: Spans)
    requires
        row(st.nodes, s0, a, ids),
    ensures
        expression(st, rbp) matches Ok((s1, id)) ==> lines_up(st.nodes, s0, s1, a, spans, ids.push(id)),
    decreases left_over(st), 3int,
{
    let sp = lemma_expression(st, rbp);
    lemma_joins(st.nodes, s0, a, ids, expression(st, rbp), sp)
}

proof fn lemma_nud(st: State) -> (spans: Spans)
    requires
        st.nodes.len() <= MAX_NODES,
    ensures
        makes(st.nodes, nud(st), st.nodes.len() as int, spans),
    decreases left_over(st), 1int,
{
    let tok = st.token;
    let name = name_node(tok.value, tok.pos);
    assert(children(name).len() == 0);
    lemma_steps(st);
    match tok.typ {
        TokenType::Name => match advanced_infix(st) {
            Err(_) => Seq::empty(),
            Ok(s1) => if (tok.value == "function"@ || tok.value == "λ"@) && s1.token.typ == TokenType::LParen {
                if eats(st, s1) {
                    lemma_lambda(s1, tok.pos)
                } else {
                    Seq::empty()
                }
            } else {
                lemma_grown_leaf(s1, name)
            },
        },
        TokenType::And => lemma_leaf_token(st, name),
        TokenType::Or => lemma_leaf_token(st, name),
        TokenType::In => lemma_leaf_token(st, name),
        TokenType::Variable => lemma_leaf_token(st, variable_node(tok.value, tok.pos)),
        TokenType::String => lemma_leaf_token(st, Node::StringLit { value: tok.value, pos: tok.pos }),
        TokenType::Number => lemma_leaf_token(
            st,
            Node::NumberLit { value: tok.num_val, raw: tok.value, pos: tok.pos },
        ),
        TokenType::Value => lemma_leaf_token(st, Node::ValueLit { value: tok.value, pos: tok.pos }),
        TokenType::Regex => lemma_leaf_token(
            st,
            Node::Regex { pattern: tok.regex_pat, flags: tok.regex_flg, pos: tok.pos },
        ),
        TokenType::Star => lemma_leaf_token(st, Node::Wildcard { keep_array: false, pos: tok.pos }),
        TokenType::StarStar => lemma_leaf_token(st, Node::Descendant { keep_array: false, pos: tok.pos }),
        TokenType::Percent => lemma_leaf_token(st, Node::Parent { pos: tok.pos, slot: None }),
        TokenType::Question => lemma_leaf_token(st, Node::Placeholder { pos: tok.pos }),
        TokenType::Minus => lemma_negation(st),
        TokenType::LBracket => lemma_array(st),
        TokenType::LBrace => lemma_object(st),
        TokenType::LParen => lemma_block(st),
        TokenType::Pipe => lemma_transform(st, tok.pos),
        TokenType::Tilde => lemma_transform(st, tok.pos),
        _ => Seq::empty(),
    }
}

proof fn lemma_negation(st: State) -> (spans: Spans)
    requires
        st.nodes.len() <= MAX_NODES,
    ensures
        makes(st.nodes, negation(st), st.nodes.len() as int, spans),
    decreases left_over(st), 0int,
{
    let a = st.nodes.len() as int;
    lemma_steps(st);
    match advanced_prefix(st) {
        Err(_) => Seq::empty(),
        Ok(s1) => if !eats(st, s1) {
            Seq::empty()
        } else {
            let sp = lemma_expression(s1, 70);
            match expression(s1, 70) {
                Err(_) => sp,
                Ok((s2, rhs)) => match node_at(s2.nodes, rhs) {
                    Some(Node::NumberLit { value, raw, pos }) => {
                        let n = Node::NumberLit { value: value.neg_spec(), raw: negated_literal(raw), pos };
                        assert(children(n) =~= children(s2.nodes[rhs.index as int]));
                        lemma_same_kids(s2.nodes, sp, a, rhs, n);
                        sp
                    },
                    _ => {
                        let n = unary_node(UnaryOp::Negate, rhs, Seq::empty(), Seq::empty(), st.token.pos);
                        lemma_row_of_one(s2.nodes, sp, a, rhs);
                        assert(children(n) =~= seq![rhs]);
                        assert(seq![rhs].contains(seq![rhs][0]));
                        lemma_grown(s2, n, a, seq![rhs], sp)
                    },
                },
            }
        },
    }
}

/// What is listed is made of what is listed.
proof fn lemma_made_of(n: Node, ids: Seq<NodeId>, nodes: Seq<Node>, spans: Spans, a: int)
    requires
        row(nodes, spans, a, ids),
        children(n) == ids || children(n) == seq![no_node()] + ids,
    ensures
        made_of(n, ids),
{
    let kids = children(n);
    let d: int = kids.len() - ids.len();
    assert forall|k: int| 0 <= k < kids.len() implies #[trigger] kids[k] == no_node() || ids.contains(kids[k]) by {
        if k >= d {
            assert(kids[k] == ids[k - d]);
        }
    }
    assert forall|k: int, m: int| 0 <= k < m < kids.len() && #[trigger] kids[k] != no_node() implies kids[k] != #[trigger] kids[m] by {
        assert(kids[k] == ids[k - d] && kids[m] == ids[m - d]);
        assert(composed(nodes, spans, a, ids[k - d].index as int));
        assert(composed(nodes, spans, a, ids[m - d].index as int));
    }
}

proof fn lemma_array(st: State) -> (spans: Spans)
    requires
        st.nodes.len() <= MAX_NODES,
    ensures
        makes(st.nodes, array(st), st.nodes.len() as int, spans),
    decreases left_over(st), 0int,
{
    let a = st.nodes.len() as int;
    lemma_steps(st);
    match advanced_prefix(st) {
        Err(_) => Seq::empty(),
        Ok(s1) => if !eats(st, s1) {
            Seq::empty()
        } else {
            let s0 = lemma_no_row(s1.nodes);
            assert(Seq::<NodeId>::empty() + Seq::<NodeId>::empty() =~= Seq::<NodeId>::empty());
            let sp = lemma_array_items(s1, Seq::empty(), Seq::empty(), a, s0);
            match array_items(s1, Seq::empty()) {
                Err(_) => sp,
                Ok((s2, ids)) => {
                    lemma_steps(s2);
                    match advanced_infix(s2) {
                        Err(_) => sp,
                        Ok(s3) => {
                            let n = unary_node(UnaryOp::ArrayCons, no_node(), ids, Seq::empty(), st.token.pos);
                            assert(Seq::<NodeId>::empty() + ids =~= ids);
                            assert(children(n) =~= seq![no_node()] + ids);
                            lemma_made_of(n, ids, s3.nodes, sp, a);
                            lemma_grown(s3, n, a, ids, sp)
                        },
                    }
                },
            }
        },
    }
}

proof fn lemma_array_items(st: State, done: Seq<NodeId>, first: Seq<NodeId>, a: int, s0: Spans) -> (spans: Spans)
    requires
        row(st.nodes, s0, a, first + done),
    ensures
        array_items(st, done) matches Ok((s1, ids)) ==> lines_up(st.nodes, s0, s1, a, spans, first + ids),
    decreases left_over(st), 4int,
{
    if st.token.typ == TokenType::RBracket || st.token.typ == TokenType::EOF {
        s0
    } else {
        let sp = lemma_item(st, 0, a, first + done, s0);
        match expression(st, 0) {
            Err(_) => sp,
            Ok((s1, id)) => {
                let now = done.push(id);
                assert((first + done).push(id) =~= first + now);
                lemma_steps(s1);
                if s1.token.typ == TokenType::Comma {
                    match advanced_prefix(s1) {
                        Err(_) => sp,
                        Ok(s2) => if !eats(st, s2) {
                            sp
                        } else {
                            let sp2 = lemma_array_items(s2, now, first, a, sp);
                            match array_items(s2, now) {
                                Ok((s3, ids)) => {
                                    lemma_lines_on(st.nodes, s0, s1, sp, s3, sp2, a, first + now, first + ids);
                                },
                                Err(_) => {},
                            }
                            sp2
                        },
                    }
                } else {
                    sp
                }
            },
        }
    }
}

proof fn lemma_object(st: State) -> (spans: Spans)
    requires
        st.nodes.len() <= MAX_NODES,
    ensures
        makes(st.nodes, object(st), st.nodes.len() as int, spans),
    decreases left_over(st), 0int,
{
    let a = st.nodes.len() as int;
    lemma_steps(st);
    match advanced_prefix(st) {
        Err(_) => Seq::empty(),
        Ok(s1) => if !eats(st, s1) {
            Seq::empty()
        } else {
            let s0 = lemma_no_row(s1.nodes);
            assert(Seq::<NodeId>::empty() + Seq::<NodeId>::empty() =~= Seq::<NodeId>::empty());
            let sp = lemma_object_pairs(s1, Seq::empty(), Seq::empty(), a, s0);
            match object_pairs(s1, Seq::empty()) {
                Err(_) => sp,
                Ok((s2, ids)) => {
                    let n = unary_node(UnaryOp::ObjCons, no_node(), Seq::empty(), ids, st.token.pos);
                    assert(Seq::<NodeId>::empty() + ids =~= ids);
                    assert(children(n) =~= seq![no_node()] + ids);
                    lemma_made_of(n, ids, s2.nodes, sp, a);
                    lemma_grown(s2, n, a, ids, sp)
                },
            }
        },
    }
}

proof fn lemma_object_pairs(st: State, done: Seq<NodeId>, first: Seq<NodeId>, a: int, s0: Spans) -> (spans: Spans)
    requires
        row(st.nodes, s0, a, first + done),
        done.len() % 2 == 0,
    ensures
        object_pairs(st, done) matches Ok((s1, ids)) ==> lines_up(st.nodes, s0, s1, a, spans, first + ids) && ids.len() % 2
            == 0,
    decreases left_over(st), 4int,
{
    lemma_steps(st);
    if st.token.typ == TokenType::RBrace || st.token.typ == TokenType::EOF {
        s0
    } else {
        let sp1 = lemma_item(st, 0, a, first + done, s0);
        match expression(st, 0) {
            Err(_) => sp1,
            Ok((s1, key)) => {
                lemma_steps(s1);
                match taken(s1, TokenType::Colon, false) {
                    Err(_) => sp1,
                    Ok(s2) => if !eats(st, s2) {
                        sp1
                    } else {
                        let sp3 = lemma_item(s2, 0, a, (first + done).push(key), sp1);
                        match expression(s2, 0) {
                            Err(_) => sp3,
                            Ok((s3, value)) => {
                                let now = done.push(key).push(value);
                                assert((first + done).push(key).push(value) =~= first + now);
                                lemma_lines_on(
                                    st.nodes,
                                    s0,
                                    s1,
                                    sp1,
                                    s3,
                                    sp3,
                                    a,
                                    (first + done).push(key),
                                    first + now,
                                );
                                lemma_steps(s3);
                                match if s3.token.typ == TokenType::Comma {
                                    advanced_prefix(s3)
                                } else {
                                    Ok(s3)
                                } {
                                    Err(_) => sp3,
                                    Ok(s4) => if !eats(st, s4) {
                                        sp3
                                    } else {
                                        let sp4 = lemma_object_pairs(s4, now, first, a, sp3);
                                        match object_pairs(s4, now) {
                                            Ok((s5, ids)) => {
                                                lemma_lines_on(
                                                    st.nodes,
                                                    s0,
                                                    s3,
                                                    sp3,
                                                    s5,
                                                    sp4,
                                                    a,
                                                    first + now,
                                                    first + ids,
                                                );
                                            },
                                            Err(_) => {},
                                        }
                                        sp4
                                    },
                                }
                            },
                        }
                    },
                }
            },
        }
    }
}

proof fn lemma_block(st: State) -> (spans: Spans)
    requires
        st.nodes.len() <= MAX_NODES,
    ensures
        makes(st.nodes, block(st), st.nodes.len() as int, spans),
    decreases left_over(st), 0int,
{
    let a = st.nodes.len() as int;
    lemma_steps(st);
    match advanced_prefix(st) {
        Err(_) => Seq::empty(),
        Ok(s1) => if !eats(st, s1) {
            Seq::empty()
        } else {
            let s0 = lemma_no_row(s1.nodes);
            let sp = lemma_block_items(s1, Seq::empty(), a, s0);
            match block_items(s1, Seq::empty()) {
                Err(_) => sp,
                Ok((s2, ids)) => {
                    lemma_steps(s2);
                    match advanced_infix(s2) {
                        Err(_) => sp,
                        Ok(s3) => {
                            let n = Node::Block {
                                expressions: ids,
                                focus: None,
                                index: None,
                                keep_array: false,
                                pos: st.token.pos,
                            };
                            lemma_made_of(n, ids, s3.nodes, sp, a);
                            lemma_grown(s3, n, a, ids, sp)
                        },
                    }
                },
            }
        },
    }
}

proof fn lemma_block_items(st: State, done: Seq<NodeId>, a: int, s0: Spans) -> (spans: Spans)
    requires
        row(st.nodes, s0, a, done),
    ensures
        block_items(st, done) matches Ok((s1, ids)) ==> lines_up(st.nodes, s0, s1, a, spans, ids),
    decreases left_over(st), 4int,
{
    if st.token.typ == TokenType::RParen || st.token.typ == TokenType::EOF {
        s0
    } else {
        let sp = lemma_item(st, 0, a, done, s0);
        match expression(st, 0) {
            Err(_) => sp,
            Ok((s1, id)) => {
                let now = done.push(id);
                lemma_steps(s1);
                if s1.token.typ != TokenType::Semicolon {
                    sp
                } else {
                    match advanced_prefix(s1) {
                        Err(_) => sp,
                        Ok(s2) => if !eats(st, s2) {
                            sp
                        } else {
                            let sp2 = lemma_block_items(s2, now, a, sp);
                            match block_items(s2, now) {
                                Ok((s3, ids)) => {
                                    lemma_lines_on(st.nodes, s0, s1, sp, s3, sp2, a, now, ids);
                                },
                                Err(_) => {},
                            }
                            sp2
                        },
                    }
                }
            },
        }
    }
}

proof fn lemma_transform(st: State, pos: usize) -> (spans: Spans)
    requires
        st.nodes.len() <= MAX_NODES,
    ensures
        makes(st.nodes, transform(st, pos), st.nodes.len() as int, spans),
    decreases left_over(st), 0int,
{
    let a = st.nodes.len() as int;
    let s0 = lemma_no_row(st.nodes);
    lemma_steps(st);
    match advanced_prefix(st) {
        Err(_) => s0,
        Ok(s1) => if !eats(st, s1) {
            s0
        } else {
            let sp2 = lemma_item(s1, 20, a, Seq::empty(), s0);
            match expression(s1, 20) {
                Err(_) => s0,
                Ok((s2, pattern)) => {
                    lemma_steps(s2);
                    match taken(s2, TokenType::Pipe, false) {
                        Err(_) => s0,
                        Ok(s3) => if !eats(st, s3) {
                            s0
                        } else {
                            let one = Seq::<NodeId>::empty().push(pattern);
                            let sp4 = lemma_item(s3, 20, a, one, sp2);
                            match expression(s3, 20) {
                                Err(_) => s0,
                                Ok((s4, update)) => {
                                    let two = one.push(update);
                                    lemma_lines_on(st.nodes, s0, s2, sp2, s4, sp4, a, one, two);
                                    lemma_steps(s4);
                                    if s4.token.typ == TokenType::Comma {
                                        match advanced_prefix(s4) {
                                            Err(_) => s0,
                                            Ok(s5) => if !eats(st, s5) {
                                                s0
                                            } else {
                                                let sp6 = lemma_item(s5, 20, a, two, sp4);
                                                match expression(s5, 20) {
                                                    Err(_) => s0,
                                                    Ok((s6, delete)) => {
                                                        let three = two.push(delete);
                                                        lemma_lines_on(st.nodes, s0, s4, sp4, s6, sp6, a, two, three);
                                                        assert(three =~= seq![pattern, update] + optional_id(Some(delete)));
                                                        lemma_transform_end(
                                                            s6,
                                                            pattern,
                                                            update,
                                                            Some(delete),
                                                            pos,
                                                            a,
                                                            three,
                                                            sp6,
                                                        )
                                                    },
                                                }
                                            },
                                        }
                                    } else {
                                        assert(two =~= seq![pattern, update] + optional_id(None));
                                        lemma_transform_end(s4, pattern, update, None, pos, a, two, sp4)
                                    }
                                },
                            }
                        },
                    }
                },
            }
        },
    }
}

proof fn lemma_transform_end(
    st: State,
    pattern: NodeId,
    update: NodeId,
    delete: Option<NodeId>,
    pos: usize,
    a: int,
    ids: Seq<NodeId>,
    s0: Spans,
) -> (spans: Spans)
    requires
        row(st.nodes, s0, a, ids),
        ids == seq![pattern, update] + optional_id(delete),
    ensures
        makes(st.nodes, transform_end(st, pattern, update, delete, pos), a, spans),
{
    lemma_steps(st);
    match taken(st, TokenType::Pipe, true) {
        Err(_) => s0,
        Ok(s1) => {
            let n = Node::Transform { pattern, update, delete, pos };
            lemma_made_of(n, ids, s1.nodes, s0, a);
            lemma_grown(s1, n, a, ids, s0)
        },
    }
}

proof fn lemma_lambda_params(st: State, done: Seq<NodeId>, a: int, s0: Spans) -> (spans: Spans)
    requires
        row(st.nodes, s0, a, done),
    ensures
        lambda_params(st, done) matches Ok((s1, ids)) ==> lines_up(st.nodes, s0, s1, a, spans, ids),
    decreases left_over(st),
{
    if st.token.typ == TokenType::RParen || st.token.typ != TokenType::Variable {
        s0
    } else {
        let n = variable_node(st.token.value, st.token.pos);
        let sp = lemma_grown_leaf(st, n);
        let sp1 = lemma_joins(st.nodes, s0, a, done, grown(st, n), sp);
        match grown(st, n) {
            Err(_) => s0,
            Ok((s1, id)) => {
                let now = done.push(id);
                lemma_steps(s1);
                match advanced(s1) {
                    Err(_) => s0,
                    Ok(s2) => {
                        lemma_steps(s2);
                        match if s2.token.typ == TokenType::Comma {
                            advanced_prefix(s2)
                        } else {
                            Ok(s2)
                        } {
                            Err(_) => s0,
                            Ok(s3) => if !eats(st, s3) {
                                s0
                            } else {
                                let sp3 = lemma_lambda_params(s3, now, a, sp1);
                                match lambda_params(s3, now) {
                                    Ok((s4, ids)) => {
                                        lemma_lines_on(st.nodes, s0, s1, sp1, s4, sp3, a, now, ids);
                                    },
                                    Err(_) => {},
                                }
                                sp3
                            },
                        }
                    },
                }
            },
        }
    }
}

proof fn lemma_signature_rest(st: State, depth: int, raw: Seq<char>)
    ensures
        signature_rest(st, depth, raw) matches Ok((s1, _)) ==> s1.nodes == st.nodes,
    decreases left_over(st),
{
    lemma_steps(st);
    if st.token.typ != TokenType::EOF {
        let d = if st.token.typ == TokenType::LT {
            depth + 1
        } else if st.token.typ == TokenType::GT {
            depth - 1
        } else {
            depth
        };
        match advanced(st) {
            Ok(s1) => if eats(st, s1) {
                lemma_signature_rest(s1, d, raw + st.token.value);
            },
            Err(_) => {},
        }
    }
}

proof fn lemma_optional_signature(st: State)
    ensures
        optional_signature(st) matches Ok((s1, _)) ==> s1.nodes == st.nodes,
{
    lemma_steps(st);
    match advanced(st) {
        Ok(s1) => {
            lemma_signature_rest(s1, 1, "<"@);
            match signature_rest(s1, 1, "<"@) {
                Ok((s2, _)) => {
                    lemma_steps(s2);
                },
                Err(_) => {},
            }
        },
        Err(_) => {},
    }
    assert(signature(st) matches Ok((s1, _)) ==> s1.nodes == st.nodes);
}

proof fn lemma_lambda_head(st: State, a: int, s0: Spans) -> (spans: Spans)
    requires
        row(st.nodes, s0, a, Seq::empty()),
    ensures
        lambda_head(st) matches Ok((s1, head)) ==> lines_up(st.nodes, s0, s1, a, spans, head.0),
{
    lemma_steps(st);
    match taken(st, TokenType::LParen, false) {
        Err(_) => s0,
        Ok(s1) => {
            let sp = lemma_lambda_params(s1, Seq::empty(), a, s0);
            match lambda_params(s1, Seq::empty()) {
                Err(_) => s0,
                Ok((s2, params)) => {
                    lemma_steps(s2);
                    match taken(s2, TokenType::RParen, s2.infix) {
                        Err(_) => s0,
                        Ok(s3) => {
                            lemma_next(s2, s2.infix);
                            lemma_optional_signature(s3);
                            match optional_signature(s3) {
                                Err(_) => s0,
                                Ok((s4, _)) => {
                                    lemma_steps(s4);
                                    sp
                                },
                            }
                        },
                    }
                },
            }
        },
    }
}

proof fn lemma_lambda(st: State, pos: usize) -> (spans: Spans)
    requires
        st.nodes.len() <= MAX_NODES,
    ensures
        makes(st.nodes, lambda(st, pos), st.nodes.len() as int, spans),
    decreases left_over(st), 0int,
{
    let a = st.nodes.len() as int;
    let s0 = lemma_no_row(st.nodes);
    let sp1 = lemma_lambda_head(st, a, s0);
    match lambda_head(st) {
        Err(_) => s0,
        Ok((s1, head)) => if !eats(st, s1) {
            s0
        } else {
            let sp2 = lemma_item(s1, 0, a, head.0, sp1);
            match expression(s1, 0) {
                Err(_) => s0,
                Ok((s2, body)) => {
                    let ids = head.0.push(body);
                    lemma_lines_on(st.nodes, s0, s1, sp1, s2, sp2, a, head.0, ids);
                    lemma_steps(s2);
                    match taken(s2, TokenType::RBrace, true) {
                        Err(_) => s0,
                        Ok(s3) => {
                            let n = Node::Lambda { params: head.0, body, signature: head.1, pos, thunk: false };
                            assert(ids.contains(ids[head.0.len() as int]));
                            lemma_grown(s3, n, a, ids, sp2)
                        },
                    }
                },
            }
        },
    }
}

/// A node made of an operand and of an expression that follows it.
proof fn lemma_two(before: Seq<Node>, s0: Spans, a: int, left: NodeId, st: State, sp: Spans, rhs: NodeId, n: Node) -> (spans:
    Spans)
    requires
        whole(before, s0, a, left),
        lines_up(before, s0, st, a, sp, seq![left].push(rhs)),
        children(n) == seq![left, rhs],
    ensures
        makes(before, grown(st, n), a, spans),
{
    let ids = seq![left].push(rhs);
    assert(children(n) =~= ids);
    lemma_made_of(n, ids, st.nodes, sp, a);
    lemma_grown(st, n, a, ids, sp)
}

proof fn lemma_operation(st: State, left: NodeId, op: BinaryOp, rbp: int, a: int, s0: Spans) -> (spans: Spans)
    requires
        whole(st.nodes, s0, a, left),
    ensures
        makes(st.nodes, operation(st, left, op, rbp), a, spans),
    decreases left_over(st), 0int,
{
    lemma_steps(st);
    lemma_row_of_one(st.nodes, s0, a, left);
    match advanced_prefix(st) {
        Err(_) => s0,
        Ok(s1) => if !eats(st, s1) {
            s0
        } else {
            let sp = lemma_item(s1, rbp, a, seq![left], s0);
            match expression(s1, rbp) {
                Err(_) => s0,
                Ok((s2, rhs)) => {
                    let n = binary_node(op, left, rhs, st.token.pos);
                    assert(children(n) =~= seq![left, rhs]);
                    lemma_two(st.nodes, s0, a, left, s2, sp, rhs, n)
                },
            }
        },
    }
}

proof fn lemma_full_operation(st: State, left: NodeId, op: BinaryOp, rbp: int, a: int, s0: Spans) -> (spans: Spans)
    requires
        whole(st.nodes, s0, a, left),
    ensures
        makes(st.nodes, full_operation(st, left, op, rbp), a, spans),
    decreases left_over(st), 0int,
{
    lemma_steps(st);
    lemma_row_of_one(st.nodes, s0, a, left);
    match advanced_prefix(st) {
        Err(_) => s0,
        Ok(s1) => if !eats(st, s1) {
            s0
        } else {
            let sp = lemma_item(s1, rbp, a, seq![left], s0);
            match expression(s1, rbp) {
                Err(_) => s0,
                Ok((s2, rhs)) => {
                    let n = binary_node(op, left, rhs, st.token.pos);
                    assert(children(n) =~= seq![left, rhs]);
                    lemma_two(st.nodes, s0, a, left, s2, sp, rhs, n)
                },
            }
        },
    }
}

proof fn lemma_led(st: State, left: NodeId, a: int, s0: Spans) -> (spans: Spans)
    requires
        whole(st.nodes, s0, a, left),
    ensures
        makes(st.nodes, led(st, left), a, spans),
    decreases left_over(st), 1int,
{
    match st.token.typ {
        TokenType::Dot => lemma_operation(st, left, BinaryOp::Dot, 74, a, s0),
        TokenType::LParen => lemma_call(st, left, a, s0),
        TokenType::LBracket => lemma_subscript(st, left, a, s0),
        TokenType::LBrace => lemma_group_by(st, left, a, s0),
        TokenType::At => lemma_bindings(st, left, a, s0),
        TokenType::Hash => lemma_bindings(st, left, a, s0),
        TokenType::Question => lemma_condition(st, left, a, s0),
        TokenType::Assign => lemma_binding(st, left, a, s0),
        TokenType::Caret => lemma_sort(st, left, a, s0),
        TokenType::Chain => lemma_operation(st, left, BinaryOp::Chain, 44, a, s0),
        TokenType::Elvis => lemma_operation(st, left, BinaryOp::CondTern, 19, a, s0),
        TokenType::Coalesce => lemma_operation(st, left, BinaryOp::NullCoal, 19, a, s0),
        TokenType::DotDot => lemma_operation(st, left, BinaryOp::Range, 19, a, s0),
        TokenType::And => lemma_operation(st, left, BinaryOp::And, 30, a, s0),
        TokenType::Or => lemma_operation(st, left, BinaryOp::Or, 25, a, s0),
        TokenType::In => lemma_operation(st, left, BinaryOp::In, 40, a, s0),
        TokenType::Pipe => lemma_operation(st, left, BinaryOp::Pipe, 19, a, s0),
        TokenType::Equals => lemma_full_operation(st, left, BinaryOp::Eq, 40, a, s0),
        TokenType::NE => lemma_full_operation(st, left, BinaryOp::Ne, 40, a, s0),
        TokenType::LT => lemma_full_operation(st, left, BinaryOp::Lt, 40, a, s0),
        TokenType::GT => lemma_full_operation(st, left, BinaryOp::Gt, 40, a, s0),
        TokenType::LE => lemma_full_operation(st, left, BinaryOp::Le, 40, a, s0),
        TokenType::GE => lemma_full_operation(st, left, BinaryOp::Ge, 40, a, s0),
        TokenType::Plus => lemma_full_operation(st, left, BinaryOp::Add, 50, a, s0),
        TokenType::Minus => lemma_full_operation(st, left, BinaryOp::Sub, 50, a, s0),
        TokenType::Star => lemma_full_operation(st, left, BinaryOp::Mul, 60, a, s0),
        TokenType::Slash => lemma_full_operation(st, left, BinaryOp::Div, 60, a, s0),
        TokenType::Percent => lemma_full_operation(st, left, BinaryOp::Mod, 60, a, s0),
        TokenType::StarStar => lemma_full_operation(st, left, BinaryOp::Pow, 60, a, s0),
        TokenType::Amp => lemma_full_operation(st, left, BinaryOp::Concat, 50, a, s0),
        _ => s0,
    }
}

proof fn lemma_call(st: State, left: NodeId, a: int, s0: Spans) -> (spans: Spans)
    requires
        whole(st.nodes, s0, a, left),
    ensures
        makes(st.nodes, call(st, left), a, spans),
    decreases left_over(st), 0int,
{
    lemma_steps(st);
    lemma_row_of_one(st.nodes, s0, a, left);
    match advanced_prefix(st) {
        Err(_) => s0,
        Ok(s1) => if !eats(st, s1) {
            s0
        } else {
            assert(seq![left] + Seq::<NodeId>::empty() =~= seq![left]);
            let sp = lemma_call_args(s1, Seq::empty(), false, seq![left], a, s0);
            match call_args(s1, Seq::empty(), false) {
                Err(_) => s0,
                Ok((s2, (ids, partial))) => {
                    lemma_steps(s2);
                    match advanced_infix(s2) {
                        Err(_) => s0,
                        Ok(s3) => {
                            let n = if partial {
                                Node::Partial { procedure: left, arguments: ids, pos: st.token.pos }
                            } else {
                                Node::Function {
                                    procedure: left,
                                    arguments: ids,
                                    pos: st.token.pos,
                                    thunk: false,
                                    keep_array: false,
                                    group: None,
                                }
                            };
                            assert(children(n) =~= seq![left] + ids);
                            lemma_made_of(n, seq![left] + ids, s3.nodes, sp, a);
                            lemma_grown(s3, n, a, seq![left] + ids, sp)
                        },
                    }
                },
            }
        },
    }
}

proof fn lemma_call_args(st: State, done: Seq<NodeId>, partial: bool, first: Seq<NodeId>, a: int, s0: Spans) -> (spans:
    Spans)
    requires
        row(st.nodes, s0, a, first + done),
    ensures
        call_args(st, done, partial) matches Ok((s1, (ids, _))) ==> lines_up(st.nodes, s0, s1, a, spans, first + ids),
    decreases left_over(st), 4int,
{
    if st.token.typ == TokenType::RParen || st.token.typ == TokenType::EOF {
        s0
    } else {
        let sp = lemma_item(st, 0, a, first + done, s0);
        match expression(st, 0) {
            Err(_) => sp,
            Ok((s1, id)) => {
                let p = partial || node_at(s1.nodes, id) matches Some(Node::Placeholder { .. });
                let now = done.push(id);
                assert((first + done).push(id) =~= first + now);
                lemma_steps(s1);
                if s1.token.typ == TokenType::Comma {
                    match advanced_prefix(s1) {
                        Err(_) => sp,
                        Ok(s2) => if !eats(st, s2) {
                            sp
                        } else {
                            let sp2 = lemma_call_args(s2, now, p, first, a, sp);
                            match call_args(s2, now, p) {
                                Ok((s3, (ids, _))) => {
                                    lemma_lines_on(st.nodes, s0, s1, sp, s3, sp2, a, first + now, first + ids);
                                },
                                Err(_) => {},
                            }
                            sp2
                        },
                    }
                } else {
                    sp
                }
            },
        }
    }
}

proof fn lemma_subscript(st: State, left: NodeId, a: int, s0: Spans) -> (spans: Spans)
    requires
        whole(st.nodes, s0, a, left),
    ensures
        makes(st.nodes, subscript(st, left), a, spans),
    decreases left_over(st), 0int,
{
    lemma_steps(st);
    lemma_row_of_one(st.nodes, s0, a, left);
    match advanced_prefix(st) {
        Err(_) => s0,
        Ok(s1) => if s1.token.typ == TokenType::RBracket {
            lemma_steps(s1);
            match advanced_infix(s1) {
                Err(_) => s0,
                Ok(s2) => {
                    let n = s2.nodes[left.index as int];
                    assert(children(with_keep_array(n)) =~= children(n));
                    lemma_same_kids(s2.nodes, s0, a, left, with_keep_array(n));
                    s0
                },
            }
        } else if !eats(st, s1) {
            s0
        } else {
            let sp = lemma_item(s1, 0, a, seq![left], s0);
            match expression(s1, 0) {
                Err(_) => s0,
                Ok((s2, rhs)) => {
                    lemma_steps(s2);
                    match taken(s2, TokenType::RBracket, true) {
                        Err(_) => s0,
                        Ok(s3) => {
                            let n = binary_node(BinaryOp::Subscript, left, rhs, st.token.pos);
                            assert(children(n) =~= seq![left, rhs]);
                            lemma_two(st.nodes, s0, a, left, s3, sp, rhs, n)
                        },
                    }
                },
            }
        },
    }
}

/// Keys and values put in pairs are the same in turn.
proof fn lemma_paired(flat: Seq<NodeId>)
    requires
        flat.len() % 2 == 0,
    ensures
        pair_ids(paired(flat)) == flat,
    decreases flat.len(),
{
    let p = paired(flat);
    if flat.len() > 0 {
        let rest = flat.take(flat.len() - 2);
        lemma_paired(rest);
        assert(p.drop_last() =~= paired(rest));
        assert(pair_ids(p) =~= flat);
    } else {
        assert(p =~= Seq::empty());
    }
}

proof fn lemma_with_group(n: Node, g: Group)
    requires
        !grouped(Some(n)),
    ensures
        with_group(n, g) matches Some(m) ==> children(m) == children(n) + pair_ids(g.pairs),
{
    match with_group(n, g) {
        Some(m) => {
            assert(children(m) =~= children(n) + pair_ids(g.pairs));
        },
        None => {},
    }
}

proof fn lemma_group_by(st: State, left: NodeId, a: int, s0: Spans) -> (spans: Spans)
    requires
        whole(st.nodes, s0, a, left),
    ensures
        makes(st.nodes, group_by(st, left), a, spans),
    decreases left_over(st), 0int,
{
    lemma_steps(st);
    lemma_row_of_one(st.nodes, s0, a, left);
    lemma_headed(st.nodes, s0, a, left);
    let p = st.nodes.len() as int;
    match advanced_prefix(st) {
        Err(_) => s0,
        Ok(s1) => if !eats(st, s1) || grouped(node_at(st.nodes, left)) {
            s0
        } else {
            assert(seq![left] + Seq::<NodeId>::empty() =~= seq![left]);
            let sp = lemma_object_pairs(s1, Seq::empty(), seq![left], a, s0);
            match object_pairs(s1, Seq::empty()) {
                Err(_) => s0,
                Ok((s2, ids)) => {
                    let g = Group { pairs: paired(ids), pos: st.token.pos };
                    let n = st.nodes[left.index as int];
                    assert(s2.nodes[left.index as int] == n);
                    lemma_paired(ids);
                    lemma_with_group(n, g);
                    match with_group(n, g) {
                        Some(m) => lemma_taken_in(s2.nodes, sp, a, p, left, ids, m),
                        None => {
                            let m = Node::Grouped { expr: left, group: g, pos: g.pos };
                            lemma_made_of(m, seq![left] + ids, s2.nodes, sp, a);
                            lemma_grown(State { infix: true, ..s2 }, m, a, seq![left] + ids, sp)
                        },
                    }
                },
            }
        },
    }
}

proof fn lemma_bindings(st: State, left: NodeId, a: int, s0: Spans) -> (spans: Spans)
    requires
        whole(st.nodes, s0, a, left),
    ensures
        makes(st.nodes, focus(st, left), a, spans),
        makes(st.nodes, index(st, left), a, spans),
{
    lemma_steps(st);
    match advanced(st) {
        Err(_) => {},
        Ok(s1) => {
            lemma_steps(s1);
        },
    }
    match bound_variable(st) {
        Err(_) => {},
        Ok((s1, v)) => {
            let n = s1.nodes[left.index as int];
            assert(s1.nodes == st.nodes);
            assert(children(with_focus(n, v)) =~= children(n));
            lemma_same_kids(s1.nodes, s0, a, left, with_focus(n, v));
            lemma_with_index(n, v);
            lemma_same_kids(s1.nodes, s0, a, left, with_index(n, v));
        },
    }
    s0
}

proof fn lemma_with_index(n: Node, v: Seq<char>)
    ensures
        children(with_index(n, v)) == children(n),
{
    assert(children(with_index(n, v)) =~= children(n));
}

proof fn lemma_condition(st: State, left: NodeId, a: int, s0: Spans) -> (spans: Spans)
    requires
        whole(st.nodes, s0, a, left),
    ensures
        makes(st.nodes, condition(st, left), a, spans),
    decreases left_over(st), 0int,
{
    lemma_steps(st);
    lemma_row_of_one(st.nodes, s0, a, left);
    match advanced_prefix(st) {
        Err(_) => s0,
        Ok(s1) => if !eats(st, s1) {
            s0
        } else {
            let sp2 = lemma_item(s1, 0, a, seq![left], s0);
            match expression(s1, 0) {
                Err(_) => s0,
                Ok((s2, then_)) => {
                    let two = seq![left].push(then_);
                    lemma_steps(s2);
                    if s2.token.typ == TokenType::Colon {
                        match advanced_prefix(s2) {
                            Err(_) => s0,
                            Ok(s3) => if !eats(st, s3) {
                                s0
                            } else {
                                let sp4 = lemma_item(s3, 0, a, two, sp2);
                                match expression(s3, 0) {
                                    Err(_) => s0,
                                    Ok((s4, other)) => {
                                        let three = two.push(other);
                                        lemma_lines_on(st.nodes, s0, s2, sp2, s4, sp4, a, two, three);
                                        let n = Node::Condition {
                                            condition: left,
                                            then_,
                                            else_: Some(other),
                                            pos: st.token.pos,
                                        };
                                        assert(children(n) =~= three);
                                        lemma_made_of(n, three, s4.nodes, sp4, a);
                                        lemma_grown(s4, n, a, three, sp4)
                                    },
                                }
                            },
                        }
                    } else {
                        let n = Node::Condition { condition: left, then_, else_: None, pos: st.token.pos };
                        assert(children(n) =~= two);
                        lemma_made_of(n, two, s2.nodes, sp2, a);
                        lemma_grown(s2, n, a, two, sp2)
                    }
                },
            }
        },
    }
}

proof fn lemma_binding(st: State, left: NodeId, a: int, s0: Spans) -> (spans: Spans)
    requires
        whole(st.nodes, s0, a, left),
    ensures
        makes(st.nodes, binding(st, left), a, spans),
    decreases left_over(st), 0int,
{
    lemma_steps(st);
    lemma_row_of_one(st.nodes, s0, a, left);
    match advanced_prefix(st) {
        Err(_) => s0,
        Ok(s1) => if !eats(st, s1) {
            s0
        } else {
            let sp = lemma_item(s1, 9, a, seq![left], s0);
            match expression(s1, 9) {
                Err(_) => s0,
                Ok((s2, rhs)) => {
                    let n = Node::Bind { lhs: left, rhs, pos: st.token.pos };
                    lemma_two(st.nodes, s0, a, left, s2, sp, rhs, n)
                },
            }
        },
    }
}

/// The expressions of the terms of an order-by.
pub open spec fn term_ids(terms: Seq<SortTerm>) -> Seq<NodeId> {
    terms.map_values(|t: SortTerm| t.expression)
}

proof fn lemma_sort(st: State, left: NodeId, a: int, s0: Spans) -> (spans: Spans)
    requires
        whole(st.nodes, s0, a, left),
    ensures
        makes(st.nodes, sort(st, left), a, spans),
    decreases left_over(st), 0int,
{
    lemma_steps(st);
    lemma_row_of_one(st.nodes, s0, a, left);
    match advanced(st) {
        Err(_) => s0,
        Ok(s1) => {
            lemma_steps(s1);
            match taken(s1, TokenType::LParen, false) {
                Err(_) => s0,
                Ok(s2) => if !eats(st, s2) {
                    s0
                } else {
                    assert(seq![left] + term_ids(Seq::empty()) =~= seq![left]);
                    let sp = lemma_sort_terms(s2, Seq::empty(), seq![left], a, s0);
                    match sort_terms(s2, Seq::empty()) {
                        Err(_) => s0,
                        Ok((s3, terms)) => {
                            lemma_steps(s3);
                            match advanced_infix(s3) {
                                Err(_) => s0,
                                Ok(s4) => {
                                    let n = Node::Sort {
                                        expr: left,
                                        terms,
                                        keep_array: false,
                                        index: None,
                                        focus: None,
                                        pos: st.token.pos,
                                    };
                                    let ids = seq![left] + term_ids(terms);
                                    assert(children(n) =~= ids);
                                    lemma_made_of(n, ids, s4.nodes, sp, a);
                                    lemma_grown(s4, n, a, ids, sp)
                                },
                            }
                        },
                    }
                },
            }
        },
    }
}

proof fn lemma_sort_terms(st: State, done: Seq<SortTerm>, first: Seq<NodeId>, a: int, s0: Spans) -> (spans: Spans)
    requires
        row(st.nodes, s0, a, first + term_ids(done)),
    ensures
        sort_terms(st, done) matches Ok((s1, terms)) ==> lines_up(st.nodes, s0, s1, a, spans, first + term_ids(terms)),
    decreases left_over(st), 4int,
{
    lemma_steps(st);
    if st.token.typ == TokenType::RParen || st.token.typ == TokenType::EOF {
        s0
    } else {
        let marked = st.token.typ == TokenType::GT || st.token.typ == TokenType::LT;
        match if marked {
            advanced_prefix(st)
        } else {
            Ok(st)
        } {
            Err(_) => s0,
            Ok(s1) => if marked && !eats(st, s1) {
                s0
            } else {
                let sp = lemma_item(s1, 0, a, first + term_ids(done), s0);
                match expression(s1, 0) {
                    Err(_) => s0,
                    Ok((s2, id)) => {
                        let now = done.push(
                            SortTerm { descending: st.token.typ == TokenType::GT, expression: id },
                        );
                        assert((first + term_ids(done)).push(id) =~= first + term_ids(now));
                        lemma_steps(s2);
                        match if s2.token.typ == TokenType::Comma {
                            advanced_prefix(s2)
                        } else {
                            Ok(s2)
                        } {
                            Err(_) => s0,
                            Ok(s3) => if !eats(st, s3) {
                                s0
                            } else {
                                let sp3 = lemma_sort_terms(s3, now, first, a, sp);
                                match sort_terms(s3, now) {
                                    Ok((s4, terms)) => {
                                        lemma_lines_on(
                                            st.nodes,
                                            s0,
                                            s2,
                                            sp,
                                            s4,
                                            sp3,
                                            a,
                                            first + term_ids(now),
                                            first + term_ids(terms),
                                        );
                                    },
                                    Err(_) => {},
                                }
                                sp3
                            },
                        }
                    },
                }
            },
        }
    }
}

/// What is parsed from a source text is a tree, and each of its nodes is part of
/// one other at most.
pub proof fn law_parsed_is_a_tree(src: Seq<char>, reads: Readings)
    requires
        parsed(src, reads) is Ok,
    ensures
        ({
            let (nodes, root) = parsed(src, reads)->Ok_0;
            is_tree(nodes, root)
        }),
{
    let st = State {
        src,
        at: 0,
        token: plain(TokenType::EOF, Seq::empty(), 0),
        infix: false,
        nodes: Seq::empty(),
        depth: 0,
        reads,
    };
    lemma_steps(st);
    match advanced(st) {
        Err(_) => {},
        Ok(s1) => if s1.token.typ != TokenType::EOF {
            let spans = lemma_expression(s1, 0);
            match expression(s1, 0) {
                Err(_) => {},
                Ok((s2, root)) => {
                    assert(whole(s2.nodes, spans, 0, root));
                },
            }
        },
    }
}

/// A tree has no node that is part of itself.
pub proof fn law_tree_is_acyclic(nodes: Seq<Node>, root: NodeId)
    requires
        is_tree(nodes, root),
    ensures
        acyclic(nodes),
        nodes.len() > 0 ==> root.index < nodes.len(),
{
    let spans = if nodes.len() == 0 {
        Seq::empty()
    } else {
        choose|spans: Spans| whole(nodes, spans, 0, root)
    };
    let rank = |i: u32| spans[i as int].1 as nat;
    assert forall|i: u32, k: int|
        i < nodes.len() && 0 <= k < children(nodes[i as int]).len() && (#[trigger] children(
            nodes[i as int],
        )[k]).index < nodes.len() implies rank(children(nodes[i as int])[k].index) < #[trigger] rank(i) by {
        assert(composed(nodes, spans, 0, i as int));
        let c = children(nodes[i as int])[k];
        assert(within(nodes, spans, 0, i as int, c));
        assert(composed(nodes, spans, 0, c.index as int));
    }
    assert(ranked(nodes, rank));
}

} // verus!
