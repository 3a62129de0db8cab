//! Processing keeps a tree a tree, and needs no more room than there is.
use vstd::prelude::*;

use super::ast::{
    children, group_ids, no_node, node_at, node_pos, optional_id, pair_ids, BinaryOp, Group, Node, NodeId, SortTerm,
    MAX_NODES,
};
use super::process::{
    acyclic, all_processed, any_keeps, as_thunk, binary_processed, collected, condition_processed, group_in,
    group_processed, lone_path, optional_processed, pairs_processed, processed, ranked, regrouped, remade, reworked,
    room_for, sort_operand, step_keeps, steps_processed, tail_marked, terms_processed, transform_processed, undecorated,
    with_body, with_branches, with_call, with_changes, with_expressions, with_inner, with_order, with_parts, with_sides,
    with_steps, wrapped, Processed,
};
use super::tree::{apart, composed, is_tree, nested, term_ids, whole, within, Spans};
use super::name_node;

verus! {

// ── Work on a tree ───────────────────────────────────────────────────────────

/// A tree before it is processed.
struct Plot {
    nodes: Seq<Node>,
    spans: Spans,
}

impl Plot {
    spec fn wf(self) -> bool {
        nested(self.nodes, self.spans, 0)
    }

    /// Whether a node of the tree is one.
    spec fn has(self, c: NodeId) -> bool {
        c.index < self.nodes.len()
    }

    spec fn lo(self, c: NodeId) -> int {
        self.spans[c.index as int].0
    }

    spec fn hi(self, c: NodeId) -> int {
        self.spans[c.index as int].1
    }

    /// Whether the number of a node is among those of another.
    spec fn inside(self, j: int, c: NodeId) -> bool {
        self.lo(c) <= self.spans[j].1 <= self.hi(c)
    }

    /// Whether nothing of what a node is made of has been changed.
    spec fn clear(self, nodes: Seq<Node>, c: NodeId) -> bool {
        c == no_node() || {
            &&& self.has(c)
            &&& forall|j: int| 0 <= j < self.nodes.len() && self.inside(j, c) ==> #[trigger] nodes[j] == self.nodes[j]
        }
    }

    /// Whether a node, if it is there, is below another.
    spec fn below(self, i: NodeId, c: NodeId) -> bool {
        c == no_node() || {
            &&& self.has(c)
            &&& self.lo(i) <= self.lo(c)
            &&& self.hi(c) < self.hi(i)
        }
    }

    spec fn width(self, c: NodeId) -> int {
        self.hi(c) - self.lo(c)
    }

    spec fn dotted(self, c: NodeId) -> bool {
        self.nodes[c.index as int] matches Node::Binary { op, .. } && op == BinaryOp::Dot
    }

    /// The room that processing a node takes.
    spec fn need(self, c: NodeId) -> int {
        if c == no_node() {
            1
        } else if self.dotted(c) {
            2 * self.width(c) + 4
        } else {
            2 * self.width(c) + 3
        }
    }
}

/// Whether only nodes of the tree with numbers among those of one are other than
/// before.
spec fn framed(o: Plot, before: Seq<Node>, after: Seq<Node>, c: NodeId) -> bool {
    &&& before.len() <= after.len()
    &&& forall|j: int|
        0 <= j < o.nodes.len() && (c == no_node() || !o.inside(j, c)) ==> #[trigger] after[j] == before[j]
}

/// Whether ranks fall from a node to those that it is made of, and stay within
/// its bounds.
spec fn falls(nodes: Seq<Node>, t: Spans, j: int) -> bool {
    let kids = children(nodes[j]);
    &&& 0 <= t[j].0 <= t[j].1
    &&& forall|k: int|
        0 <= k < kids.len() ==> #[trigger] kids[k] == no_node() || (kids[k].index < nodes.len() && t[j].0
            <= t[kids[k].index as int].0 && t[kids[k].index as int].1 < t[j].1)
}

/// Whether nodes have ranks that fall, those of the tree twice their numbers.
#[verifier::opaque]
spec fn sound(o: Plot, nodes: Seq<Node>, t: Spans) -> bool {
    &&& o.nodes.len() <= nodes.len() <= MAX_NODES
    &&& t.len() == nodes.len()
    &&& forall|j: int| 0 <= j < o.nodes.len() ==> #[trigger] t[j] == (2 * o.spans[j].0, 2 * o.spans[j].1)
    &&& forall|j: int| 0 <= j < nodes.len() ==> #[trigger] falls(nodes, t, j)
}

spec fn grows(t: Spans, u: Spans) -> bool {
    &&& t.len() <= u.len()
    &&& forall|j: int| 0 <= j < t.len() ==> #[trigger] u[j] == t[j]
}

/// Whether a node, if it is there, has its rank below that of a node of the
/// tree.
spec fn placed(o: Plot, t: Spans, i: NodeId, c: NodeId) -> bool {
    c == no_node() || {
        &&& c.index < t.len()
        &&& 2 * o.lo(i) <= t[c.index as int].0
        &&& t[c.index as int].1 < 2 * o.hi(i)
    }
}

spec fn all_placed(o: Plot, t: Spans, i: NodeId, ids: Seq<NodeId>) -> bool {
    forall|k: int| 0 <= k < ids.len() ==> placed(o, t, i, #[trigger] ids[k])
}

/// Whether what a node of the tree is made of is being processed, and some of it
/// is still to come.
#[verifier::opaque]
spec fn busy(o: Plot, base: Seq<Node>, nodes: Seq<Node>, t: Spans, i: NodeId, rest: Seq<NodeId>) -> bool {
    &&& o.wf()
    &&& sound(o, nodes, t)
    &&& o.has(i)
    &&& framed(o, base, nodes, i)
    &&& forall|m: int| 0 <= m < rest.len() ==> o.clear(nodes, #[trigger] rest[m]) && o.below(i, rest[m])
    &&& forall|m: int, l: int|
        0 <= m < l < rest.len() ==> apart(o.spans, #[trigger] rest[m], #[trigger] rest[l])
}

/// Whether a node is made of what another is made of and of some more.
spec fn from(n: Node, old_node: Node, more: Seq<NodeId>) -> bool {
    forall|k: int|
        0 <= k < children(n).len() ==> children(old_node).contains(#[trigger] children(n)[k]) || more.contains(
            children(n)[k],
        )
}

proof fn lemma_apart(o: Plot, j: int, c: NodeId, d: NodeId)
    requires
        apart(o.spans, c, d),
        c != no_node(),
        d != no_node(),
    ensures
        !(o.inside(j, c) && o.inside(j, d)),
{
}

proof fn lemma_still_clear(o: Plot, before: Seq<Node>, after: Seq<Node>, c: NodeId, d: NodeId)
    requires
        o.clear(before, c),
        framed(o, before, after, d),
        apart(o.spans, c, d),
    ensures
        o.clear(after, c),
{
    if c != no_node() {
        assert forall|j: int| 0 <= j < o.nodes.len() && o.inside(j, c) implies #[trigger] after[j] == o.nodes[j] by {
            assert(before[j] == o.nodes[j]);
            if d != no_node() {
                lemma_apart(o, j, c, d);
            }
            assert(after[j] == before[j]);
        }
    }
}

/// What is below a node is clear if the node is.
proof fn lemma_clear_below(o: Plot, nodes: Seq<Node>, i: NodeId, c: NodeId)
    requires
        o.clear(nodes, i),
        i != no_node(),
        o.below(i, c),
    ensures
        o.clear(nodes, c),
{
    if c != no_node() {
        assert forall|j: int| 0 <= j < o.nodes.len() && o.inside(j, c) implies #[trigger] nodes[j] == o.nodes[j] by {
            assert(o.inside(j, i));
        }
    }
}

/// What a change below a node leaves, a change of the node leaves.
proof fn lemma_framed_wider(o: Plot, a: Seq<Node>, b: Seq<Node>, c: Seq<Node>, i: NodeId, d: NodeId)
    requires
        framed(o, a, b, i),
        framed(o, b, c, d),
        o.below(i, d),
        i != no_node(),
    ensures
        framed(o, a, c, i),
{
    assert forall|j: int| 0 <= j < o.nodes.len() && (i == no_node() || !o.inside(j, i)) implies #[trigger] c[j] == a[j] by {
        assert(b[j] == a[j]);
    }
}

/// Work on a node begins.
proof fn lemma_start(o: Plot, nodes: Seq<Node>, t: Spans, i: NodeId)
    requires
        o.wf(),
        sound(o, nodes, t),
        o.has(i),
        o.clear(nodes, i),
    ensures
        busy(o, nodes, nodes, t, i, children(o.nodes[i.index as int])),
        i.index < nodes.len(),
        nodes[i.index as int] == o.nodes[i.index as int],
{
    reveal(sound);
    reveal(busy);
    let kids = children(o.nodes[i.index as int]);
    assert(composed(o.nodes, o.spans, 0, i.index as int));
    assert(i != no_node());
    assert(o.inside(i.index as int, i));
    assert forall|m: int| 0 <= m < kids.len() implies o.clear(nodes, #[trigger] kids[m]) && o.below(i, kids[m]) by {
        assert(within(o.nodes, o.spans, 0, i.index as int, kids[m]));
        lemma_clear_below(o, nodes, i, kids[m]);
    }
}

/// The node that is worked on is there.
proof fn lemma_at_hand(o: Plot, base: Seq<Node>, nodes: Seq<Node>, t: Spans, i: NodeId, rest: Seq<NodeId>)
    requires
        busy(o, base, nodes, t, i, rest),
    ensures
        i.index < nodes.len(),
{
    reveal(sound);
    reveal(busy);
}

proof fn lemma_busy_skip(o: Plot, base: Seq<Node>, nodes: Seq<Node>, t: Spans, i: NodeId, rest: Seq<NodeId>, k: int)
    requires
        busy(o, base, nodes, t, i, rest),
        0 <= k <= rest.len(),
    ensures
        busy(o, base, nodes, t, i, rest.skip(k)),
{
    reveal(busy);
    let r = rest.skip(k);
    assert forall|m: int| 0 <= m < r.len() implies o.clear(nodes, #[trigger] r[m]) && o.below(i, r[m]) by {
        assert(r[m] == rest[m + k]);
    }
    assert forall|m: int, l: int| 0 <= m < l < r.len() implies apart(o.spans, #[trigger] r[m], #[trigger] r[l]) by {
        assert(r[m] == rest[m + k] && r[l] == rest[l + k]);
    }
}

proof fn lemma_placed_on(o: Plot, t: Spans, u: Spans, i: NodeId, ids: Seq<NodeId>)
    requires
        all_placed(o, t, i, ids),
        grows(t, u),
    ensures
        all_placed(o, u, i, ids),
{
    assert forall|k: int| 0 <= k < ids.len() implies placed(o, u, i, #[trigger] ids[k]) by {
        assert(placed(o, t, i, ids[k]));
    }
}

/// The node that is worked on is replaced.
proof fn lemma_put(
    o: Plot,
    base: Seq<Node>,
    nodes: Seq<Node>,
    t: Spans,
    i: NodeId,
    rest: Seq<NodeId>,
    n: Node,
    more: Seq<NodeId>,
)
    requires
        busy(o, base, nodes, t, i, rest),
        from(n, nodes[i.index as int], more),
        all_placed(o, t, i, more),
    ensures
        busy(o, base, nodes.update(i.index as int, n), t, i, rest),
{
    reveal(sound);
    reveal(busy);
    let after = nodes.update(i.index as int, n);
    let x = i.index as int;
    assert(composed(o.nodes, o.spans, 0, x));
    assert forall|j: int| 0 <= j < after.len() implies #[trigger] falls(after, t, j) by {
        assert(falls(nodes, t, j));
        if j == x {
            let kids = children(n);
            let old_kids = children(nodes[x]);
            assert forall|k: int| 0 <= k < kids.len() implies #[trigger] kids[k] == no_node() || (kids[k].index
                < after.len() && t[x].0 <= t[kids[k].index as int].0 && t[kids[k].index as int].1 < t[x].1) by {
                if old_kids.contains(kids[k]) {
                    let y = choose|y: int| 0 <= y < old_kids.len() && old_kids[y] == kids[k];
                    assert(old_kids[y] == no_node() || old_kids[y].index < nodes.len());
                } else {
                    let y = choose|y: int| 0 <= y < more.len() && more[y] == kids[k];
                    assert(placed(o, t, i, more[y]));
                }
            }
        }
    }
    assert(o.inside(x, i));
    assert(framed(o, base, after, i)) by {
        assert forall|j: int| 0 <= j < o.nodes.len() && (i == no_node() || !o.inside(j, i)) implies #[trigger] after[j]
            == base[j] by {
            assert(j != x);
            assert(nodes[j] == base[j]);
        }
    }
    assert forall|m: int| 0 <= m < rest.len() implies o.clear(after, #[trigger] rest[m]) && o.below(i, rest[m]) by {
        let c = rest[m];
        assert(o.clear(nodes, c) && o.below(i, c));
        if c != no_node() {
            assert forall|j: int| 0 <= j < o.nodes.len() && o.inside(j, c) implies #[trigger] after[j] == o.nodes[j] by {
                assert(nodes[j] == o.nodes[j]);
                assert(j != x);
            }
        }
    }
}

/// What a node that is processed leaves.
#[verifier::opaque]
spec fn left(o: Plot, before: Seq<Node>, t: Spans, after: Seq<Node>, p: NodeId, c: NodeId, u: Spans) -> bool {
    &&& sound(o, after, u)
    &&& grows(t, u)
    &&& framed(o, before, after, c)
    &&& if c == no_node() {
        p == c
    } else {
        &&& p.index < after.len()
        &&& 2 * o.lo(c) <= u[p.index as int].0
        &&& u[p.index as int].1 <= 2 * o.hi(c) + 1
    }
}

/// What becomes of a node that is processed.
spec fn worked(o: Plot, before: Seq<Node>, t: Spans, r: Processed<NodeId>, c: NodeId, u: Spans) -> bool {
    match r {
        Err(_) => true,
        Ok((after, p)) => left(o, before, t, after, p, c, u),
    }
}

/// One of what is still to come has been processed.
proof fn lemma_next_one(
    o: Plot,
    base: Seq<Node>,
    nodes: Seq<Node>,
    t: Spans,
    i: NodeId,
    rest: Seq<NodeId>,
    after: Seq<Node>,
    p: NodeId,
    u: Spans,
)
    requires
        busy(o, base, nodes, t, i, rest),
        rest.len() > 0,
        worked(o, nodes, t, Ok((after, p)), rest[0], u),
    ensures
        busy(o, base, after, u, i, rest.skip(1)),
        i.index < after.len(),
        after[i.index as int] == nodes[i.index as int],
        placed(o, u, i, p),
        grows(t, u),
{
    reveal(sound);
    reveal(left);
    reveal(busy);
    let c = rest[0];
    let x = i.index as int;
    assert(o.below(i, c));
    assert(composed(o.nodes, o.spans, 0, x));
    lemma_framed_wider(o, base, nodes, after, i, c);
    let r = rest.skip(1);
    assert forall|m: int| 0 <= m < r.len() implies o.clear(after, #[trigger] r[m]) && o.below(i, r[m]) by {
        assert(r[m] == rest[m + 1]);
        assert(o.clear(nodes, rest[m + 1]) && o.below(i, rest[m + 1]));
        assert(apart(o.spans, rest[0], rest[m + 1]));
        lemma_still_clear(o, nodes, after, rest[m + 1], c);
    }
    assert forall|m: int, l: int| 0 <= m < l < r.len() implies apart(o.spans, #[trigger] r[m], #[trigger] r[l]) by {
        assert(r[m] == rest[m + 1] && r[l] == rest[l + 1]);
    }
    assert(after[x] == nodes[x]);
}

/// The room for what is below a node.
proof fn lemma_need_below(o: Plot, i: NodeId, c: NodeId)
    requires
        o.wf(),
        o.has(i),
        o.below(i, c),
    ensures
        1 <= o.need(c) <= 2 * o.width(i) + 2,
{
    assert(composed(o.nodes, o.spans, 0, i.index as int));
    if c != no_node() {
        assert(composed(o.nodes, o.spans, 0, c.index as int));
    }
}

// ── Processing ───────────────────────────────────────────────────────────────

spec fn either(nodes: Seq<Node>, c: NodeId, room: nat, plain: bool) -> Processed<NodeId> {
    if plain {
        undecorated(nodes, c, room)
    } else {
        processed(nodes, c, room)
    }
}

/// What becomes of a node that keeps its place.
spec fn finished(o: Plot, before: Seq<Node>, t: Spans, r: Processed<NodeId>, i: NodeId, u: Spans) -> bool {
    &&& worked(o, before, t, r, i, u)
    &&& r matches Ok((_, p)) ==> p == i
}

proof fn lemma_finish(o: Plot, base: Seq<Node>, nodes: Seq<Node>, t0: Spans, t: Spans, i: NodeId, rest: Seq<NodeId>)
    requires
        busy(o, base, nodes, t, i, rest),
        grows(t0, t),
    ensures
        finished(o, base, t0, Ok((nodes, i)), i, t),
{
    reveal(sound);
    reveal(left);
    reveal(busy);
    assert(composed(o.nodes, o.spans, 0, i.index as int));
}

proof fn lemma_undecorated(o: Plot, nodes: Seq<Node>, t: Spans, c: NodeId, room: nat, more: nat) -> (u: Spans)
    requires
        o.wf(),
        sound(o, nodes, t),
        o.clear(nodes, c),
        o.need(c) <= room <= more,
    ensures
        undecorated(nodes, c, room) == undecorated(nodes, c, more),
        finished(o, nodes, t, undecorated(nodes, c, room), c, u),
    decreases room, 0int, 0int,
{
    reveal(sound);
    reveal(left);
    if c == no_node() {
        t
    } else {
        assert(composed(o.nodes, o.spans, 0, c.index as int));
        lemma_reworked(o, nodes, t, c, (room - 1) as nat, (more - 1) as nat)
    }
}

/// A step put in a path of its own.
proof fn lemma_wrapped(o: Plot, before: Seq<Node>, t: Spans, nodes: Seq<Node>, c: NodeId, u: Spans) -> (v: Spans)
    requires
        o.wf(),
        c == no_node() || o.has(c),
        finished(o, before, t, Ok((nodes, c)), c, u),
    ensures
        worked(o, before, t, wrapped(nodes, c), c, v),
{
    reveal(sound);
    reveal(left);
    if c == no_node() {
        u
    } else {
        let x = c.index as int;
        assert(composed(o.nodes, o.spans, 0, x));
        match lone_path(nodes[x], c) {
            None => u,
            Some(n) => if nodes.len() >= MAX_NODES {
                u
            } else {
                let after = nodes.push(n);
                let v = u.push((2 * o.lo(c), 2 * o.hi(c) + 1));
                assert(children(n) =~= seq![c]);
                assert forall|j: int| 0 <= j < after.len() implies #[trigger] falls(after, v, j) by {
                    if j < nodes.len() {
                        assert(falls(nodes, u, j));
                    }
                }
                v
            },
        }
    }
}

proof fn lemma_processed(o: Plot, nodes: Seq<Node>, t: Spans, c: NodeId, room: nat, more: nat) -> (u: Spans)
    requires
        o.wf(),
        sound(o, nodes, t),
        o.clear(nodes, c),
        o.need(c) <= room <= more,
    ensures
        processed(nodes, c, room) == processed(nodes, c, more),
        worked(o, nodes, t, processed(nodes, c, room), c, u),
    decreases room, 1int, 0int,
{
    let u = lemma_undecorated(o, nodes, t, c, room, more);
    match undecorated(nodes, c, room) {
        Err(_) => u,
        Ok((n1, p)) => lemma_wrapped(o, nodes, t, n1, c, u),
    }
}

/// One of what is still to come is processed.
proof fn lemma_one(
    o: Plot,
    base: Seq<Node>,
    nodes: Seq<Node>,
    t: Spans,
    i: NodeId,
    rest: Seq<NodeId>,
    room: nat,
    more: nat,
    plain: bool,
) -> (u: Spans)
    requires
        busy(o, base, nodes, t, i, rest),
        rest.len() > 0,
        2 * o.width(i) + 2 <= room <= more,
    ensures
        either(nodes, rest[0], room, plain) == either(nodes, rest[0], more, plain),
        either(nodes, rest[0], room, plain) matches Ok((n1, p)) ==> busy(o, base, n1, u, i, rest.skip(1)) && i.index
            < n1.len() && n1[i.index as int] == nodes[i.index as int] && placed(o, u, i, p) && grows(t, u),
    decreases room, 2int, 0int,
{
    reveal(busy);
    let c = rest[0];
    assert(o.clear(nodes, c) && o.below(i, c));
    lemma_need_below(o, i, c);
    let u = if plain {
        lemma_undecorated(o, nodes, t, c, room, more)
    } else {
        lemma_processed(o, nodes, t, c, room, more)
    };
    match either(nodes, c, room, plain) {
        Err(_) => {},
        Ok((n1, p)) => {
            lemma_next_one(o, base, nodes, t, i, rest, n1, p, u);
        },
    }
    u
}

proof fn lemma_all(
    o: Plot,
    base: Seq<Node>,
    nodes: Seq<Node>,
    t: Spans,
    i: NodeId,
    ids: Seq<NodeId>,
    rest: Seq<NodeId>,
    k: int,
    done: Seq<NodeId>,
    room: nat,
    more: nat,
) -> (u: Spans)
    requires
        0 <= k <= ids.len(),
        busy(o, base, nodes, t, i, ids.skip(k) + rest),
        all_placed(o, t, i, done),
        2 * o.width(i) + 2 <= room <= more,
    ensures
        all_processed(nodes, ids, k, done, room) == all_processed(nodes, ids, k, done, more),
        all_processed(nodes, ids, k, done, room) matches Ok((n1, out)) ==> busy(o, base, n1, u, i, rest) && i.index < n1.len()
            && n1[i.index as int] == nodes[i.index as int] && all_placed(o, u, i, out) && grows(t, u),
    decreases room, 3int, ids.len() - k,
{
    let all = ids.skip(k) + rest;
    if k >= ids.len() {
        assert(all =~= rest);
        lemma_at_hand(o, base, nodes, t, i, all);
        t
    } else {
        assert(all[0] == ids[k]);
        let u = lemma_one(o, base, nodes, t, i, all, room, more, false);
        match processed(nodes, ids[k], room) {
            Err(_) => u,
            Ok((n1, p)) => {
                assert(all.skip(1) =~= ids.skip(k + 1) + rest);
                lemma_placed_on(o, t, u, i, done);
                lemma_all(o, base, n1, u, i, ids, rest, k + 1, done.push(p), room, more)
            },
        }
    }
}

proof fn lemma_steps(
    o: Plot,
    base: Seq<Node>,
    nodes: Seq<Node>,
    t: Spans,
    i: NodeId,
    ids: Seq<NodeId>,
    rest: Seq<NodeId>,
    k: int,
    done: Seq<NodeId>,
    keep: bool,
    room: nat,
    more: nat,
) -> (u: Spans)
    requires
        0 <= k <= ids.len(),
        busy(o, base, nodes, t, i, ids.skip(k) + rest),
        all_placed(o, t, i, done),
        2 * o.width(i) + 2 <= room <= more,
    ensures
        steps_processed(nodes, ids, k, done, keep, room) == steps_processed(nodes, ids, k, done, keep, more),
        steps_processed(nodes, ids, k, done, keep, room) matches Ok((n1, (out, _))) ==> busy(o, base, n1, u, i, rest)
            && i.index < n1.len() && n1[i.index as int] == nodes[i.index as int] && all_placed(o, u, i, out) && grows(t, u),
    decreases room, 3int, ids.len() - k,
{
    let all = ids.skip(k) + rest;
    if k >= ids.len() {
        assert(all =~= rest);
        lemma_at_hand(o, base, nodes, t, i, all);
        t
    } else {
        assert(all[0] == ids[k]);
        let u = lemma_one(o, base, nodes, t, i, all, room, more, false);
        match processed(nodes, ids[k], room) {
            Err(_) => u,
            Ok((n1, p)) => {
                assert(all.skip(1) =~= ids.skip(k + 1) + rest);
                lemma_placed_on(o, t, u, i, done);
                lemma_steps(
                    o,
                    base,
                    n1,
                    u,
                    i,
                    ids,
                    rest,
                    k + 1,
                    done.push(p),
                    keep || step_keeps(n1, p, n1.len()),
                    room,
                    more,
                )
            },
        }
    }
}

proof fn lemma_terms(
    o: Plot,
    base: Seq<Node>,
    nodes: Seq<Node>,
    t: Spans,
    i: NodeId,
    terms: Seq<SortTerm>,
    k: int,
    done: Seq<SortTerm>,
    room: nat,
    more: nat,
) -> (u: Spans)
    requires
        0 <= k <= terms.len(),
        busy(o, base, nodes, t, i, term_ids(terms.skip(k))),
        all_placed(o, t, i, term_ids(done)),
        2 * o.width(i) + 2 <= room <= more,
    ensures
        terms_processed(nodes, terms, k, done, room) == terms_processed(nodes, terms, k, done, more),
        terms_processed(nodes, terms, k, done, room) matches Ok((n1, out)) ==> busy(o, base, n1, u, i, Seq::empty())
            && i.index < n1.len() && n1[i.index as int] == nodes[i.index as int] && all_placed(o, u, i, term_ids(out)) && grows(t, u),
    decreases room, 3int, terms.len() - k,
{
    let all = term_ids(terms.skip(k));
    if k >= terms.len() {
        assert(all =~= Seq::empty());
        lemma_at_hand(o, base, nodes, t, i, all);
        t
    } else {
        assert(all[0] == terms[k].expression);
        let u = lemma_one(o, base, nodes, t, i, all, room, more, false);
        match processed(nodes, terms[k].expression, room) {
            Err(_) => u,
            Ok((n1, p)) => {
                let now = done.push(SortTerm { descending: terms[k].descending, expression: p });
                assert(all.skip(1) =~= term_ids(terms.skip(k + 1)));
                lemma_placed_on(o, t, u, i, term_ids(done));
                assert(term_ids(now) =~= term_ids(done).push(p));
                lemma_terms(o, base, n1, u, i, terms, k + 1, now, room, more)
            },
        }
    }
}

/// The first pair comes first.
proof fn lemma_first_pair(p: Seq<(NodeId, NodeId)>)
    requires
        p.len() > 0,
    ensures
        pair_ids(p) == seq![p[0].0, p[0].1] + pair_ids(p.skip(1)),
    decreases p.len(),
{
    if p.len() == 1 {
        assert(p.drop_last() =~= Seq::empty());
        assert(p.skip(1) =~= Seq::empty());
        assert(pair_ids(p) =~= seq![p[0].0, p[0].1] + pair_ids(p.skip(1)));
    } else {
        let q = p.drop_last();
        lemma_first_pair(q);
        assert(q.skip(1) =~= p.skip(1).drop_last());
        assert(pair_ids(p) =~= seq![p[0].0, p[0].1] + pair_ids(p.skip(1)));
    }
}

#[verifier::spinoff_prover]
proof fn lemma_pairs(
    o: Plot,
    base: Seq<Node>,
    nodes: Seq<Node>,
    t: Spans,
    i: NodeId,
    pairs: Seq<(NodeId, NodeId)>,
    k: int,
    done: Seq<(NodeId, NodeId)>,
    room: nat,
    more: nat,
) -> (u: Spans)
    requires
        0 <= k <= pairs.len(),
        busy(o, base, nodes, t, i, pair_ids(pairs.skip(k))),
        all_placed(o, t, i, pair_ids(done)),
        2 * o.width(i) + 2 <= room <= more,
    ensures
        pairs_processed(nodes, pairs, k, done, room) == pairs_processed(nodes, pairs, k, done, more),
        pairs_processed(nodes, pairs, k, done, room) matches Ok((n1, out)) ==> busy(o, base, n1, u, i, Seq::empty())
            && i.index < n1.len() && n1[i.index as int] == nodes[i.index as int] && all_placed(o, u, i, pair_ids(out)) && grows(t, u),
    decreases room, 3int, pairs.len() - k,
{
    let all = pair_ids(pairs.skip(k));
    if k >= pairs.len() {
        assert(pairs.skip(k) =~= Seq::empty());
        lemma_at_hand(o, base, nodes, t, i, all);
        t
    } else {
        lemma_first_pair(pairs.skip(k));
        assert(pairs.skip(k).skip(1) =~= pairs.skip(k + 1));
        assert(all[0] == pairs[k].0);
        let u1 = lemma_one(o, base, nodes, t, i, all, room, more, false);
        match processed(nodes, pairs[k].0, room) {
            Err(_) => u1,
            Ok((n1, a)) => {
                assert(all.skip(1)[0] == pairs[k].1);
                let u2 = lemma_one(o, base, n1, u1, i, all.skip(1), room, more, false);
                match processed(n1, pairs[k].1, room) {
                    Err(_) => u2,
                    Ok((n2, b)) => {
                        let now = done.push((a, b));
                        assert(all.skip(1).skip(1) =~= pair_ids(pairs.skip(k + 1)));
                        assert(now.drop_last() =~= done);
                        assert(placed(o, u2, i, a));
                        lemma_placed_on(o, t, u2, i, pair_ids(done));
                        assert(pair_ids(now) =~= pair_ids(done).push(a).push(b));
                        lemma_pairs(o, base, n2, u2, i, pairs, k + 1, now, room, more)
                    },
                }
            },
        }
    }
}

/// What a node with another group-by is made of.
proof fn lemma_regrouped(n: Node, g: Group)
    ensures
        from(regrouped(n, g), n, pair_ids(g.pairs)),
{
    let m = regrouped(n, g);
    let old_kids = children(n);
    let kids = children(m);
    let new_kids = pair_ids(g.pairs);
    assert forall|k: int| 0 <= k < kids.len() implies old_kids.contains(#[trigger] kids[k]) || new_kids.contains(kids[k]) by {
        if group_in(n) is Some || m != n {
            let first = kids.len() - new_kids.len();
            if k < first {
                assert(kids[k] == old_kids[k]);
            } else {
                assert(kids[k] == new_kids[k - first]);
            }
        } else {
            assert(kids[k] == old_kids[k]);
        }
    }
}

proof fn lemma_grouped(
    o: Plot,
    base: Seq<Node>,
    nodes: Seq<Node>,
    t0: Spans,
    t: Spans,
    i: NodeId,
    room: nat,
    more: nat,
) -> (u: Spans)
    requires
        busy(o, base, nodes, t, i, group_ids(group_in(nodes[i.index as int]))),
        grows(t0, t),
        2 * o.width(i) + 2 <= room <= more,
    ensures
        group_processed(nodes, i, room) == group_processed(nodes, i, more),
        finished(o, base, t0, group_processed(nodes, i, room), i, u),
    decreases room, 4int, 0int,
{
    reveal(sound);
    reveal(busy);
    let x = i.index as int;
    match group_in(nodes[x]) {
        None => {
            lemma_finish(o, base, nodes, t0, t, i, Seq::empty());
            t
        },
        Some(g) => {
            assert(g.pairs.skip(0) =~= g.pairs);
            assert(pair_ids(Seq::empty()) =~= Seq::empty());
            let u = lemma_pairs(o, base, nodes, t, i, g.pairs, 0, Seq::empty(), room, more);
            match pairs_processed(nodes, g.pairs, 0, Seq::empty(), room) {
                Err(_) => u,
                Ok((n1, pairs)) => {
                    let h = Group { pairs, pos: g.pos };
                    lemma_regrouped(n1[x], h);
                    lemma_put(o, base, n1, u, i, Seq::empty(), regrouped(n1[x], h), pair_ids(pairs));
                    lemma_finish(o, base, n1.update(x, regrouped(n1[x], h)), t0, u, i, Seq::empty());
                    u
                },
            }
        },
    }
}

// ── Each kind of node ────────────────────────────────────────────────────────

/// Calls marked below a node.
proof fn lemma_tail(o: Plot, nodes: Seq<Node>, t: Spans, i: NodeId, c: NodeId, room: nat)
    requires
        o.wf(),
        sound(o, nodes, t),
        o.has(i),
        c == no_node() || (c.index < nodes.len() && 2 * o.lo(i) <= t[c.index as int].0 && t[c.index as int].1 <= 2 * o.hi(
            i,
        )),
    ensures
        sound(o, tail_marked(nodes, c, room), t),
        framed(o, nodes, tail_marked(nodes, c, room), i),
    decreases room,
{
    reveal(sound);
    let after = tail_marked(nodes, c, room);
    if room > 0 && c != no_node() {
        let x = c.index as int;
        assert(falls(nodes, t, x));
        match nodes[x] {
            Node::Function { group: None, .. } => {
                assert(after == nodes.update(x, as_thunk(nodes[x])));
                assert(children(after[x]) =~= children(nodes[x]));
                assert forall|j: int| 0 <= j < after.len() implies #[trigger] falls(after, t, j) by {
                    assert(falls(nodes, t, j));
                    assert(children(after[j]) == children(nodes[j]));
                }
                assert forall|j: int| 0 <= j < o.nodes.len() && !o.inside(j, i) implies #[trigger] after[j] == nodes[j] by {
                    if j == x {
                        assert(t[j] == (2 * o.spans[j].0, 2 * o.spans[j].1));
                    }
                }
            },
            Node::Condition { condition, then_, else_, .. } => {
                let kids = children(nodes[x]);
                assert(kids[1] == then_);
                lemma_tail(o, nodes, t, i, then_, (room - 1) as nat);
                let n1 = tail_marked(nodes, then_, (room - 1) as nat);
                match else_ {
                    Some(e) => {
                        assert(kids[2] == e);
                        lemma_tail(o, n1, t, i, e, (room - 1) as nat);
                        assert forall|j: int| 0 <= j < o.nodes.len() && !o.inside(j, i) implies #[trigger] after[j]
                            == nodes[j] by {
                            assert(n1[j] == nodes[j]);
                        }
                    },
                    None => {},
                }
            },
            Node::Block { expressions, .. } => if expressions.len() > 0 {
                let kids = children(nodes[x]);
                assert(kids[expressions.len() - 1] == expressions.last());
                lemma_tail(o, nodes, t, i, expressions.last(), (room - 1) as nat);
            },
            _ => {},
        }
    }
}

/// What was put in is in.
proof fn lemma_from(n: Node, old_node: Node, more: Seq<NodeId>, tail: Seq<NodeId>, d: int)
    requires
        children(n) == more + tail,
        0 <= d,
        d + tail.len() == children(old_node).len(),
        children(old_node).skip(d) == tail,
    ensures
        from(n, old_node, more),
{
    let kids = children(n);
    assert forall|k: int| 0 <= k < kids.len() implies children(old_node).contains(#[trigger] kids[k]) || more.contains(
        kids[k],
    ) by {
        if k < more.len() {
            assert(kids[k] == more[k]);
        } else {
            assert(kids[k] == children(old_node).skip(d)[k - more.len()]);
            assert(kids[k] == children(old_node)[d + k - more.len()]);
        }
    }
}

#[verifier::spinoff_prover]
proof fn lemma_binary(
    o: Plot,
    nodes: Seq<Node>,
    t: Spans,
    i: NodeId,
    op: BinaryOp,
    lhs: NodeId,
    rhs: NodeId,
    room: nat,
    more: nat,
) -> (u: Spans)
    requires
        o.wf(),
        sound(o, nodes, t),
        o.has(i),
        o.clear(nodes, i),
        o.nodes[i.index as int] matches Node::Binary { op: p, lhs: l, rhs: r, .. } && p == op && l == lhs && r == rhs,
        2 * o.width(i) + 2 <= room <= more,
    ensures
        binary_processed(nodes, i, op, lhs, rhs, room) == binary_processed(nodes, i, op, lhs, rhs, more),
        finished(o, nodes, t, binary_processed(nodes, i, op, lhs, rhs, room), i, u),
    decreases room, 5int, 0int,
{
    let x = i.index as int;
    lemma_start(o, nodes, t, i);
    let rest = children(o.nodes[x]);
    let tail = group_ids(group_in(o.nodes[x]));
    let plain = op == BinaryOp::Subscript;
    assert(rest[0] == lhs);
    let u1 = lemma_one(o, nodes, nodes, t, i, rest, room, more, plain);
    match either(nodes, lhs, room, plain) {
        Err(_) => u1,
        Ok((n1, l)) => {
            assert(rest.skip(1)[0] == rhs);
            let u2 = lemma_one(o, nodes, n1, u1, i, rest.skip(1), room, more, false);
            match processed(n1, rhs, room) {
                Err(_) => u2,
                Ok((n2, r)) => {
                    let n = with_sides(n2[x], l, r);
                    let put = seq![l] + seq![r] + Seq::<NodeId>::empty();
                    assert(rest.skip(1).skip(1) =~= tail);
                    assert(children(n) =~= put + tail);
                    assert(children(n2[x]).skip(2) =~= tail);
                    lemma_from(n, n2[x], put, tail, 2);
                    lemma_three(o, u1, u2, u2, i, seq![l], seq![r], Seq::empty());
                    lemma_put(o, nodes, n2, u2, i, tail, n, put);
                    lemma_grouped(o, nodes, n2.update(x, n), t, u2, i, room, more)
                },
            }
        },
    }
}

#[verifier::spinoff_prover]
proof fn lemma_unary(
    o: Plot,
    nodes: Seq<Node>,
    t: Spans,
    i: NodeId,
    room: nat,
    more: nat,
) -> (u: Spans)
    requires
        o.wf(),
        sound(o, nodes, t),
        o.has(i),
        o.clear(nodes, i),
        o.nodes[i.index as int] is Unary,
        o.need(i) - 1 <= room <= more,
    ensures
        reworked(nodes, i, room) == reworked(nodes, i, more),
        finished(o, nodes, t, reworked(nodes, i, room), i, u),
    decreases room, 5int, 0int,
{
    let x = i.index as int;
    lemma_start(o, nodes, t, i);
    match o.nodes[x] {
        Node::Unary { operand, expressions, lhs, group, .. } => {
            let rest = children(o.nodes[x]);
            let tail = group_ids(group);
            assert(rest[0] == operand);
            let u1 = lemma_one(o, nodes, nodes, t, i, rest, room, more, false);
            match processed(nodes, operand, room) {
                Err(_) => u1,
                Ok((n1, p)) => {
                    assert(expressions.skip(0) =~= expressions);
                    assert(rest.skip(1) =~= expressions.skip(0) + (lhs + tail));
                    let u2 = lemma_all(
                        o,
                        nodes,
                        n1,
                        u1,
                        i,
                        expressions,
                        lhs + tail,
                        0,
                        Seq::empty(),
                        room,
                        more,
                    );
                    match all_processed(n1, expressions, 0, Seq::empty(), room) {
                        Err(_) => u2,
                        Ok((n2, es)) => {
                            assert(lhs.skip(0) =~= lhs);
                            let u3 = lemma_all(o, nodes, n2, u2, i, lhs, tail, 0, Seq::empty(), room, more);
                            match all_processed(n2, lhs, 0, Seq::empty(), room) {
                                Err(_) => u3,
                                Ok((n3, l)) => {
                                    let n = with_parts(n3[x], p, es, l);
                                    let put = seq![p] + es + l;
                                    assert(n3[x] == o.nodes[x]);
                                    assert(children(n) =~= put + tail);
                                    let d: int = 1int + expressions.len() + lhs.len();
                                    assert(children(n3[x]).skip(d) =~= tail);
                                    lemma_from(n, n3[x], put, tail, d);
                                    lemma_three(o, u1, u2, u3, i, seq![p], es, l);
                                    lemma_put(o, nodes, n3, u3, i, tail, n, put);
                                    lemma_grouped(o, nodes, n3.update(x, n), t, u3, i, room, more)
                                },
                            }
                        },
                    }
                },
            }
        },
        _ => t,
    }
}

/// The node that was worked on is replaced by one of what came out.
proof fn lemma_close(
    o: Plot,
    base: Seq<Node>,
    nodes: Seq<Node>,
    t0: Spans,
    u: Spans,
    i: NodeId,
    n: Node,
    put: Seq<NodeId>,
)
    requires
        busy(o, base, nodes, u, i, Seq::empty()),
        grows(t0, u),
        children(n) == put,
        all_placed(o, u, i, put),
    ensures
        finished(o, base, t0, Ok((nodes.update(i.index as int, n), i)), i, u),
{
    let x = i.index as int;
    let d: int = children(nodes[x]).len() as int;
    assert(children(nodes[x]).skip(d) =~= Seq::<NodeId>::empty());
    assert(put =~= put + Seq::<NodeId>::empty());
    lemma_from(n, nodes[x], put, Seq::empty(), d);
    lemma_put(o, base, nodes, u, i, Seq::empty(), n, put);
    lemma_finish(o, base, nodes.update(x, n), t0, u, i, Seq::empty());
}

proof fn lemma_three(
    o: Plot,
    u1: Spans,
    u2: Spans,
    u3: Spans,
    i: NodeId,
    a: Seq<NodeId>,
    b: Seq<NodeId>,
    c: Seq<NodeId>,
)
    requires
        all_placed(o, u1, i, a),
        all_placed(o, u2, i, b),
        all_placed(o, u3, i, c),
        grows(u1, u2),
        grows(u2, u3),
    ensures
        all_placed(o, u3, i, a + b + c),
{
    lemma_placed_on(o, u1, u2, i, a);
    lemma_placed_on(o, u2, u3, i, a);
    lemma_placed_on(o, u2, u3, i, b);
    let all = a + b + c;
    assert forall|k: int| 0 <= k < all.len() implies placed(o, u3, i, #[trigger] all[k]) by {
        if k < a.len() {
            assert(all[k] == a[k]);
        } else if k < a.len() + b.len() {
            assert(all[k] == b[k - a.len()]);
        } else {
            assert(all[k] == c[k - a.len() - b.len()]);
        }
    }
}

#[verifier::spinoff_prover]
proof fn lemma_block(
    o: Plot,
    nodes: Seq<Node>,
    t: Spans,
    i: NodeId,
    room: nat,
    more: nat,
) -> (u: Spans)
    requires
        o.wf(),
        sound(o, nodes, t),
        o.has(i),
        o.clear(nodes, i),
        o.nodes[i.index as int] is Block,
        o.need(i) - 1 <= room <= more,
    ensures
        reworked(nodes, i, room) == reworked(nodes, i, more),
        finished(o, nodes, t, reworked(nodes, i, room), i, u),
    decreases room, 5int, 0int,
{
    let x = i.index as int;
    lemma_start(o, nodes, t, i);
    match o.nodes[x] {
        Node::Block { expressions, .. } => {
            assert(expressions.skip(0) + Seq::<NodeId>::empty() =~= children(o.nodes[x]));
            let u = lemma_all(o, nodes, nodes, t, i, expressions, Seq::empty(), 0, Seq::empty(), room, more);
            match all_processed(nodes, expressions, 0, Seq::empty(), room) {
                Err(_) => u,
                Ok((n1, es)) => {
                    lemma_close(o, nodes, n1, t, u, i, with_expressions(n1[x], es), es);
                    u
                },
            }
        },
        _ => t,
    }
}

#[verifier::spinoff_prover]
proof fn lemma_inner(
    o: Plot,
    nodes: Seq<Node>,
    t: Spans,
    i: NodeId,
    room: nat,
    more: nat,
) -> (u: Spans)
    requires
        o.wf(),
        sound(o, nodes, t),
        o.has(i),
        o.clear(nodes, i),
        o.nodes[i.index as int] is Grouped,
        o.need(i) - 1 <= room <= more,
    ensures
        reworked(nodes, i, room) == reworked(nodes, i, more),
        finished(o, nodes, t, reworked(nodes, i, room), i, u),
    decreases room, 5int, 0int,
{
    let x = i.index as int;
    lemma_start(o, nodes, t, i);
    match o.nodes[x] {
        Node::Grouped { expr, group, .. } => {
            let rest = children(o.nodes[x]);
            let tail = pair_ids(group.pairs);
            assert(rest[0] == expr);
            let u = lemma_one(o, nodes, nodes, t, i, rest, room, more, false);
            match processed(nodes, expr, room) {
                Err(_) => u,
                Ok((n1, p)) => {
                    let n = with_inner(n1[x], p);
                    assert(rest.skip(1) =~= tail);
                    assert(children(n) =~= seq![p] + tail);
                    assert(children(n1[x]).skip(1) =~= tail);
                    lemma_from(n, n1[x], seq![p], tail, 1);
                    lemma_put(o, nodes, n1, u, i, tail, n, seq![p]);
                    lemma_grouped(o, nodes, n1.update(x, n), t, u, i, room, more)
                },
            }
        },
        _ => t,
    }
}

#[verifier::spinoff_prover]
proof fn lemma_function(
    o: Plot,
    nodes: Seq<Node>,
    t: Spans,
    i: NodeId,
    room: nat,
    more: nat,
) -> (u: Spans)
    requires
        o.wf(),
        sound(o, nodes, t),
        o.has(i),
        o.clear(nodes, i),
        o.nodes[i.index as int] is Function,
        o.need(i) - 1 <= room <= more,
    ensures
        reworked(nodes, i, room) == reworked(nodes, i, more),
        finished(o, nodes, t, reworked(nodes, i, room), i, u),
    decreases room, 5int, 0int,
{
    let x = i.index as int;
    lemma_start(o, nodes, t, i);
    match o.nodes[x] {
        Node::Function { procedure, arguments, .. } => {
            let rest = children(o.nodes[x]);
            let tail = group_ids(group_in(o.nodes[x]));
            assert(rest[0] == procedure);
            let u1 = lemma_one(o, nodes, nodes, t, i, rest, room, more, false);
            match processed(nodes, procedure, room) {
                Err(_) => u1,
                Ok((n1, p)) => {
                    assert(rest.skip(1) =~= arguments.skip(0) + tail);
                    let u2 = lemma_all(o, nodes, n1, u1, i, arguments, tail, 0, Seq::empty(), room, more);
                    match all_processed(n1, arguments, 0, Seq::empty(), room) {
                        Err(_) => u2,
                        Ok((n2, a)) => {
                            let n = with_call(n2[x], p, a);
                            let put = seq![p] + a;
                            assert(children(n) =~= put + tail);
                            assert(children(n2[x]).skip(1int + arguments.len()) =~= tail);
                            lemma_from(n, n2[x], put, tail, 1int + arguments.len());
                            lemma_three(o, u1, u2, u2, i, seq![p], a, Seq::empty());
                            assert(seq![p] + a + Seq::<NodeId>::empty() =~= put);
                            lemma_put(o, nodes, n2, u2, i, tail, n, put);
                            lemma_grouped(o, nodes, n2.update(x, n), t, u2, i, room, more)
                        },
                    }
                },
            }
        },
        _ => t,
    }
}

#[verifier::spinoff_prover]
proof fn lemma_partial(
    o: Plot,
    nodes: Seq<Node>,
    t: Spans,
    i: NodeId,
    room: nat,
    more: nat,
) -> (u: Spans)
    requires
        o.wf(),
        sound(o, nodes, t),
        o.has(i),
        o.clear(nodes, i),
        o.nodes[i.index as int] is Partial,
        o.need(i) - 1 <= room <= more,
    ensures
        reworked(nodes, i, room) == reworked(nodes, i, more),
        finished(o, nodes, t, reworked(nodes, i, room), i, u),
    decreases room, 5int, 0int,
{
    let x = i.index as int;
    lemma_start(o, nodes, t, i);
    match o.nodes[x] {
        Node::Partial { procedure, arguments, .. } => {
            let rest = children(o.nodes[x]);
            let tail = group_ids(group_in(o.nodes[x]));
            assert(rest[0] == procedure);
            let u1 = lemma_one(o, nodes, nodes, t, i, rest, room, more, false);
            match processed(nodes, procedure, room) {
                Err(_) => u1,
                Ok((n1, p)) => {
                    assert(rest.skip(1) =~= arguments.skip(0) + tail);
                    let u2 = lemma_all(o, nodes, n1, u1, i, arguments, tail, 0, Seq::empty(), room, more);
                    match all_processed(n1, arguments, 0, Seq::empty(), room) {
                        Err(_) => u2,
                        Ok((n2, a)) => {
                            let n = with_call(n2[x], p, a);
                            let put = seq![p] + a;
                            assert(children(n) =~= put + tail);
                            assert(children(n2[x]).skip(1int + arguments.len()) =~= tail);
                            lemma_from(n, n2[x], put, tail, 1int + arguments.len());
                            lemma_three(o, u1, u2, u2, i, seq![p], a, Seq::empty());
                            assert(seq![p] + a + Seq::<NodeId>::empty() =~= put);
                            lemma_put(o, nodes, n2, u2, i, tail, n, put);
                            lemma_grouped(o, nodes, n2.update(x, n), t, u2, i, room, more)
                        },
                    }
                },
            }
        },
        _ => t,
    }
}

#[verifier::spinoff_prover]
proof fn lemma_lambda(
    o: Plot,
    nodes: Seq<Node>,
    t: Spans,
    i: NodeId,
    room: nat,
    more: nat,
) -> (u: Spans)
    requires
        o.wf(),
        sound(o, nodes, t),
        o.has(i),
        o.clear(nodes, i),
        o.nodes[i.index as int] is Lambda,
        o.need(i) - 1 <= room <= more,
    ensures
        reworked(nodes, i, room) == reworked(nodes, i, more),
        finished(o, nodes, t, reworked(nodes, i, room), i, u),
    decreases room, 5int, 0int,
{
    reveal(sound);
    reveal(left);
    let x = i.index as int;
    lemma_start(o, nodes, t, i);
    match o.nodes[x] {
        Node::Lambda { body, .. } => {
            let rest = children(o.nodes[x]);
            assert(rest[0] == body);
            let u = lemma_one(o, nodes, nodes, t, i, rest, room, more, false);
            match processed(nodes, body, room) {
                Err(_) => u,
                Ok((n1, b)) => {
                    let n = with_body(n1[x], b);
                    assert(rest.skip(1) =~= Seq::<NodeId>::empty());
                    assert(children(n) =~= seq![b] + Seq::<NodeId>::empty());
                    assert(children(n1[x]).skip(1) =~= Seq::<NodeId>::empty());
                    lemma_from(n, n1[x], seq![b], Seq::empty(), 1);
                    lemma_put(o, nodes, n1, u, i, Seq::empty(), n, seq![b]);
                    let n2 = n1.update(x, n);
                    lemma_finish(o, nodes, n2, t, u, i, Seq::empty());
                    lemma_tail(o, n2, u, i, b, n2.len());
                    let n3 = tail_marked(n2, b, n2.len());
                    assert forall|j: int| 0 <= j < o.nodes.len() && !o.inside(j, i) implies #[trigger] n3[j] == nodes[j] by {
                        assert(n2[j] == nodes[j]);
                    }
                    u
                },
            }
        },
        _ => t,
    }
}

proof fn lemma_optional(
    o: Plot,
    base: Seq<Node>,
    nodes: Seq<Node>,
    t: Spans,
    i: NodeId,
    id: Option<NodeId>,
    room: nat,
    more: nat,
) -> (u: Spans)
    requires
        busy(o, base, nodes, t, i, optional_id(id)),
        2 * o.width(i) + 2 <= room <= more,
    ensures
        optional_processed(nodes, id, room) == optional_processed(nodes, id, more),
        optional_processed(nodes, id, room) matches Ok((n1, p)) ==> busy(o, base, n1, u, i, Seq::empty()) && i.index < n1.len()
            && n1[i.index as int] == nodes[i.index as int] && all_placed(o, u, i, optional_id(p)) && grows(t, u),
    decreases room, 3int, 0int,
{
    reveal(busy);
    match id {
        None => {
            lemma_at_hand(o, base, nodes, t, i, optional_id(id));
            t
        },
        Some(c) => {
            let rest = optional_id(id);
            assert(rest[0] == c);
            let u = lemma_one(o, base, nodes, t, i, rest, room, more, false);
            assert(rest.skip(1) =~= Seq::<NodeId>::empty());
            u
        },
    }
}

#[verifier::spinoff_prover]
proof fn lemma_condition(
    o: Plot,
    nodes: Seq<Node>,
    t: Spans,
    i: NodeId,
    condition: NodeId,
    then_: NodeId,
    else_: Option<NodeId>,
    room: nat,
    more: nat,
) -> (u: Spans)
    requires
        o.wf(),
        sound(o, nodes, t),
        o.has(i),
        o.clear(nodes, i),
        o.nodes[i.index as int] matches Node::Condition { condition: c, then_: t, else_: e, .. } && c == condition && t == then_
            && e == else_,
        o.need(i) - 1 <= room <= more,
    ensures
        condition_processed(nodes, i, condition, then_, else_, room) == condition_processed(nodes, i, condition, then_, else_, more),
        finished(o, nodes, t, condition_processed(nodes, i, condition, then_, else_, room), i, u),
    decreases room, 5int, 0int,
{
    let x = i.index as int;
    lemma_start(o, nodes, t, i);
    let rest = children(o.nodes[x]);
    assert(rest[0] == condition);
    let u1 = lemma_one(o, nodes, nodes, t, i, rest, room, more, false);
    match processed(nodes, condition, room) {
        Err(_) => u1,
        Ok((n1, p)) => {
            assert(rest.skip(1)[0] == then_);
            let u2 = lemma_one(o, nodes, n1, u1, i, rest.skip(1), room, more, false);
            match processed(n1, then_, room) {
                Err(_) => u2,
                Ok((n2, q)) => {
                    assert(rest.skip(1).skip(1) =~= optional_id(else_));
                    let u3 = lemma_optional(o, nodes, n2, u2, i, else_, room, more);
                    match optional_processed(n2, else_, room) {
                        Err(_) => u3,
                        Ok((n3, r)) => {
                            let n = with_branches(n3[x], p, q, r);
                            let put = seq![p] + seq![q] + optional_id(r);
                            assert(children(n) =~= put);
                            lemma_three(o, u1, u2, u3, i, seq![p], seq![q], optional_id(r));
                            lemma_close(o, nodes, n3, t, u3, i, n, put);
                            u3
                        },
                    }
                },
            }
        },
    }
}

#[verifier::spinoff_prover]
proof fn lemma_transform(
    o: Plot,
    nodes: Seq<Node>,
    t: Spans,
    i: NodeId,
    pattern: NodeId,
    update: NodeId,
    delete: Option<NodeId>,
    room: nat,
    more: nat,
) -> (u: Spans)
    requires
        o.wf(),
        sound(o, nodes, t),
        o.has(i),
        o.clear(nodes, i),
        o.nodes[i.index as int] matches Node::Transform { pattern: p, update: u, delete: d, .. } && p == pattern && u == update
            && d == delete,
        o.need(i) - 1 <= room <= more,
    ensures
        transform_processed(nodes, i, pattern, update, delete, room) == transform_processed(nodes, i, pattern, update, delete, more),
        finished(o, nodes, t, transform_processed(nodes, i, pattern, update, delete, room), i, u),
    decreases room, 5int, 0int,
{
    let x = i.index as int;
    lemma_start(o, nodes, t, i);
    let rest = children(o.nodes[x]);
    assert(rest[0] == pattern);
    let u1 = lemma_one(o, nodes, nodes, t, i, rest, room, more, false);
    match processed(nodes, pattern, room) {
        Err(_) => u1,
        Ok((n1, p)) => {
            assert(rest.skip(1)[0] == update);
            let u2 = lemma_one(o, nodes, n1, u1, i, rest.skip(1), room, more, false);
            match processed(n1, update, room) {
                Err(_) => u2,
                Ok((n2, q)) => {
                    assert(rest.skip(1).skip(1) =~= optional_id(delete));
                    let u3 = lemma_optional(o, nodes, n2, u2, i, delete, room, more);
                    match optional_processed(n2, delete, room) {
                        Err(_) => u3,
                        Ok((n3, r)) => {
                            let n = with_changes(n3[x], p, q, r);
                            let put = seq![p] + seq![q] + optional_id(r);
                            assert(children(n) =~= put);
                            lemma_three(o, u1, u2, u3, i, seq![p], seq![q], optional_id(r));
                            lemma_close(o, nodes, n3, t, u3, i, n, put);
                            u3
                        },
                    }
                },
            }
        },
    }
}

/// A binding processed.
spec fn sides_processed(nodes: Seq<Node>, i: NodeId, lhs: NodeId, rhs: NodeId, room: nat) -> Processed<NodeId> {
    match processed(nodes, lhs, room) {
        Err(e) => Err(e),
        Ok((n1, l)) => match processed(n1, rhs, room) {
            Err(e) => Err(e),
            Ok((n2, r)) => Ok((remade(n2, i, |m: Node| with_sides(m, l, r)), i)),
        },
    }
}

#[verifier::spinoff_prover]
proof fn lemma_bind(
    o: Plot,
    nodes: Seq<Node>,
    t: Spans,
    i: NodeId,
    lhs: NodeId,
    rhs: NodeId,
    room: nat,
    more: nat,
) -> (u: Spans)
    requires
        o.wf(),
        sound(o, nodes, t),
        o.has(i),
        o.clear(nodes, i),
        o.nodes[i.index as int] matches Node::Bind { lhs: l, rhs: r, .. } && l == lhs && r == rhs,
        2 * o.width(i) + 2 <= room <= more,
    ensures
        sides_processed(nodes, i, lhs, rhs, room) == sides_processed(nodes, i, lhs, rhs, more),
        finished(o, nodes, t, sides_processed(nodes, i, lhs, rhs, room), i, u),
    decreases room, 5int, 0int,
{
    let x = i.index as int;
    lemma_start(o, nodes, t, i);
    let rest = children(o.nodes[x]);
    assert(rest[0] == lhs);
    let u1 = lemma_one(o, nodes, nodes, t, i, rest, room, more, false);
    match processed(nodes, lhs, room) {
        Err(_) => u1,
        Ok((n1, l)) => {
            assert(rest.skip(1)[0] == rhs);
            let u2 = lemma_one(o, nodes, n1, u1, i, rest.skip(1), room, more, false);
            match processed(n1, rhs, room) {
                Err(_) => u2,
                Ok((n2, r)) => {
                    let n = with_sides(n2[x], l, r);
                    let put = seq![l] + seq![r] + Seq::<NodeId>::empty();
                    assert(rest.skip(1).skip(1) =~= Seq::<NodeId>::empty());
                    assert(children(n) =~= put);
                    lemma_three(o, u1, u2, u2, i, seq![l], seq![r], Seq::empty());
                    lemma_close(o, nodes, n2, t, u2, i, n, put);
                    u2
                },
            }
        },
    }
}

#[verifier::spinoff_prover]
proof fn lemma_sort(
    o: Plot,
    nodes: Seq<Node>,
    t: Spans,
    i: NodeId,
    room: nat,
    more: nat,
) -> (u: Spans)
    requires
        o.wf(),
        sound(o, nodes, t),
        o.has(i),
        o.clear(nodes, i),
        o.nodes[i.index as int] is Sort,
        o.need(i) - 1 <= room <= more,
    ensures
        reworked(nodes, i, room) == reworked(nodes, i, more),
        finished(o, nodes, t, reworked(nodes, i, room), i, u),
    decreases room, 5int, 0int,
{
    let x = i.index as int;
    lemma_start(o, nodes, t, i);
    match o.nodes[x] {
        Node::Sort { expr, terms, .. } => {
            let rest = children(o.nodes[x]);
            let plain = node_at(nodes, expr) matches Some(Node::Wildcard { .. });
            assert(rest[0] == expr);
            let u1 = lemma_one(o, nodes, nodes, t, i, rest, room, more, plain);
            assert(sort_operand(nodes, expr, room) == either(nodes, expr, room, plain));
            assert(sort_operand(nodes, expr, more) == either(nodes, expr, more, plain));
            match sort_operand(nodes, expr, room) {
                Err(_) => u1,
                Ok((n1, p)) => {
                    assert(rest.skip(1) =~= term_ids(terms.skip(0)));
                    assert(term_ids(Seq::empty()) =~= Seq::<NodeId>::empty());
                    let u2 = lemma_terms(o, nodes, n1, u1, i, terms, 0, Seq::empty(), room, more);
                    match terms_processed(n1, terms, 0, Seq::empty(), room) {
                        Err(_) => u2,
                        Ok((n2, ts)) => {
                            let n = with_order(n2[x], p, ts);
                            let put = seq![p] + term_ids(ts) + Seq::<NodeId>::empty();
                            assert(children(n) =~= put);
                            lemma_three(o, u1, u2, u2, i, seq![p], term_ids(ts), Seq::empty());
                            lemma_close(o, nodes, n2, t, u2, i, n, put);
                            u2
                        },
                    }
                },
            }
        },
        _ => t,
    }
}

#[verifier::spinoff_prover]
proof fn lemma_path(
    o: Plot,
    nodes: Seq<Node>,
    t: Spans,
    i: NodeId,
    room: nat,
    more: nat,
) -> (u: Spans)
    requires
        o.wf(),
        sound(o, nodes, t),
        o.has(i),
        o.clear(nodes, i),
        o.nodes[i.index as int] is Path,
        o.need(i) - 1 <= room <= more,
    ensures
        reworked(nodes, i, room) == reworked(nodes, i, more),
        finished(o, nodes, t, reworked(nodes, i, room), i, u),
    decreases room, 5int, 0int,
{
    let x = i.index as int;
    lemma_start(o, nodes, t, i);
    match o.nodes[x] {
        Node::Path { steps, group, .. } => {
            let tail = group_ids(group);
            assert(children(o.nodes[x]) =~= steps.skip(0) + tail);
            let u = lemma_steps(o, nodes, nodes, t, i, steps, tail, 0, Seq::empty(), false, room, more);
            match steps_processed(nodes, steps, 0, Seq::empty(), false, room) {
                Err(_) => u,
                Ok((n1, (ss, keep))) => {
                    let n = with_steps(n1[x], ss, keep);
                    assert(children(n) =~= ss + tail);
                    assert(children(n1[x]).skip(steps.len() as int) =~= tail);
                    lemma_from(n, n1[x], ss, tail, steps.len() as int);
                    lemma_put(o, nodes, n1, u, i, tail, n, ss);
                    lemma_grouped(o, nodes, n1.update(x, n), t, u, i, room, more)
                },
            }
        },
        _ => t,
    }
}

/// A node of which only the group-by is processed.
proof fn lemma_other(
    o: Plot,
    nodes: Seq<Node>,
    t: Spans,
    i: NodeId,
    room: nat,
    more: nat,
) -> (u: Spans)
    requires
        o.wf(),
        sound(o, nodes, t),
        o.has(i),
        o.clear(nodes, i),
        2 * o.width(i) + 2 <= room <= more,
    ensures
        group_processed(nodes, i, room) == group_processed(nodes, i, more),
        finished(o, nodes, t, group_processed(nodes, i, room), i, u),
    decreases room, 5int, 0int,
{
    let x = i.index as int;
    lemma_start(o, nodes, t, i);
    let kids = children(o.nodes[x]);
    let tail = group_ids(group_in(o.nodes[x]));
    assert(kids.len() >= tail.len() && kids.skip(kids.len() - tail.len()) =~= tail);
    lemma_busy_skip(o, nodes, nodes, t, i, kids, kids.len() - tail.len());
    lemma_grouped(o, nodes, nodes, t, t, i, room, more)
}

#[verifier::spinoff_prover]
proof fn lemma_reworked(o: Plot, nodes: Seq<Node>, t: Spans, i: NodeId, room: nat, more: nat) -> (u: Spans)
    requires
        o.wf(),
        sound(o, nodes, t),
        o.has(i),
        o.clear(nodes, i),
        o.need(i) - 1 <= room <= more,
    ensures
        reworked(nodes, i, room) == reworked(nodes, i, more),
        finished(o, nodes, t, reworked(nodes, i, room), i, u),
    decreases room, 6int, 0int,
{
    lemma_start(o, nodes, t, i);
    match o.nodes[i.index as int] {
        Node::Binary { op, lhs, rhs, .. } => if op == BinaryOp::Dot {
            lemma_dot(o, nodes, t, i, room, more)
        } else {
            lemma_binary(o, nodes, t, i, op, lhs, rhs, room, more)
        },
        Node::Unary { .. } => lemma_unary(o, nodes, t, i, room, more),
        Node::Block { .. } => lemma_block(o, nodes, t, i, room, more),
        Node::Grouped { .. } => lemma_inner(o, nodes, t, i, room, more),
        Node::Function { .. } => lemma_function(o, nodes, t, i, room, more),
        Node::Partial { .. } => lemma_partial(o, nodes, t, i, room, more),
        Node::Lambda { .. } => lemma_lambda(o, nodes, t, i, room, more),
        Node::Condition { condition, then_, else_, .. } => lemma_condition(
            o,
            nodes,
            t,
            i,
            condition,
            then_,
            else_,
            room,
            more,
        ),
        Node::Bind { lhs, rhs, .. } => lemma_bind(o, nodes, t, i, lhs, rhs, room, more),
        Node::Transform { pattern, update, delete, .. } => lemma_transform(
            o,
            nodes,
            t,
            i,
            pattern,
            update,
            delete,
            room,
            more,
        ),
        Node::Sort { .. } => lemma_sort(o, nodes, t, i, room, more),
        Node::Path { .. } => lemma_path(o, nodes, t, i, room, more),
        _ => lemma_other(o, nodes, t, i, room, more),
    }
}

// ── Chains of dots ───────────────────────────────────────────────────────────

/// The room that collecting the steps of a node takes.
spec fn chain_need(o: Plot, c: NodeId) -> int {
    if c == no_node() {
        2
    } else if o.dotted(c) {
        2 * o.width(c) + 3
    } else {
        2 * o.width(c) + 4
    }
}

proof fn lemma_below_both(o: Plot, i: NodeId, c: NodeId, d: NodeId)
    requires
        c == i || (o.below(i, c) && c != no_node()),
        o.below(c, d),
    ensures
        o.below(i, d),
{
}

/// What is apart from a node is apart from what is below it.
proof fn lemma_apart_below(o: Plot, c: NodeId, d: NodeId, e: NodeId)
    requires
        apart(o.spans, c, e),
        c != no_node(),
        o.below(c, d),
        o.wf(),
        e == no_node() || o.has(e),
    ensures
        apart(o.spans, d, e),
        apart(o.spans, e, d),
{
}

/// A node without parts is added.
proof fn lemma_name_added(
    o: Plot,
    base: Seq<Node>,
    nodes: Seq<Node>,
    t: Spans,
    i: NodeId,
    rest: Seq<NodeId>,
    c: NodeId,
    n: Node,
) -> (u: Spans)
    requires
        busy(o, base, nodes, t, i, rest),
        nodes.len() < MAX_NODES,
        children(n).len() == 0,
        o.has(c),
        o.below(i, c),
    ensures
        busy(o, base, nodes.push(n), u, i, rest),
        grows(t, u),
        placed(o, u, i, NodeId { index: nodes.len() as u32 }),
{
    reveal(sound);
    reveal(busy);
    assert(composed(o.nodes, o.spans, 0, c.index as int));
    assert(c != no_node());
    let after = nodes.push(n);
    let u = t.push((2 * o.lo(c), 2 * o.hi(c)));
    assert forall|j: int| 0 <= j < after.len() implies #[trigger] falls(after, u, j) by {
        if j < nodes.len() {
            assert(falls(nodes, t, j));
        }
    }
    assert forall|m: int| 0 <= m < rest.len() implies o.clear(after, #[trigger] rest[m]) && o.below(i, rest[m]) by {
        assert(o.clear(nodes, rest[m]) && o.below(i, rest[m]));
        if rest[m] != no_node() {
            assert forall|j: int| 0 <= j < o.nodes.len() && o.inside(j, rest[m]) implies #[trigger] after[j]
                == o.nodes[j] by {
                assert(nodes[j] == o.nodes[j]);
            }
        }
    }
    assert forall|j: int| 0 <= j < o.nodes.len() && (i == no_node() || !o.inside(j, i)) implies #[trigger] after[j]
        == base[j] by {
        assert(nodes[j] == base[j]);
    }
    u
}

/// Whether each of a list is below a node.
spec fn all_below(o: Plot, c: NodeId, ids: Seq<NodeId>) -> bool {
    forall|m: int| 0 <= m < ids.len() ==> o.below(c, #[trigger] ids[m])
}

spec fn all_apart(o: Plot, c: NodeId, ids: Seq<NodeId>) -> bool {
    forall|m: int| 0 <= m < ids.len() ==> apart(o.spans, c, #[trigger] ids[m])
}

/// What collecting steps leaves.
spec fn gathered(
    o: Plot,
    base: Seq<Node>,
    before: Seq<Node>,
    t: Spans,
    i: NodeId,
    c: NodeId,
    group: Option<Group>,
    r: Processed<(Seq<NodeId>, Option<Group>)>,
    u: Spans,
) -> bool {
    match r {
        Err(_) => true,
        Ok((after, (steps, g))) => {
            &&& busy(o, base, after, u, i, group_ids(g))
            &&& framed(o, before, after, c)
            &&& all_placed(o, u, i, steps)
            &&& grows(t, u)
            &&& g == group || (group is None && c != no_node() && all_below(o, c, group_ids(g)))
        },
    }
}

proof fn lemma_collected(
    o: Plot,
    base: Seq<Node>,
    nodes: Seq<Node>,
    t: Spans,
    i: NodeId,
    c: NodeId,
    steps: Seq<NodeId>,
    group: Option<Group>,
    room: nat,
    more: nat,
) -> (u: Spans)
    requires
        busy(o, base, nodes, t, i, group_ids(group)),
        o.dotted(i),
        o.clear(nodes, c),
        c == i || o.below(i, c),
        all_apart(o, c, group_ids(group)),
        all_placed(o, t, i, steps),
        chain_need(o, c) <= room <= more,
    ensures
        collected(nodes, c, steps, group, room) == collected(nodes, c, steps, group, more),
        gathered(o, base, nodes, t, i, c, group, collected(nodes, c, steps, group, room), u),
    decreases room, 4int, 0int,
{
    if c != no_node() && o.dotted(c) {
        lemma_collected_dot(o, base, nodes, t, i, c, steps, group, room, more)
    } else {
        lemma_collected_step(o, base, nodes, t, i, c, steps, group, room, more)
    }
}

#[verifier::spinoff_prover]
proof fn lemma_collected_step(
    o: Plot,
    base: Seq<Node>,
    nodes: Seq<Node>,
    t: Spans,
    i: NodeId,
    c: NodeId,
    steps: Seq<NodeId>,
    group: Option<Group>,
    room: nat,
    more: nat,
) -> (u: Spans)
    requires
        busy(o, base, nodes, t, i, group_ids(group)),
        o.dotted(i),
        c == no_node() || !o.dotted(c),
        o.clear(nodes, c),
        c == i || o.below(i, c),
        all_apart(o, c, group_ids(group)),
        all_placed(o, t, i, steps),
        chain_need(o, c) <= room <= more,
    ensures
        collected(nodes, c, steps, group, room) == collected(nodes, c, steps, group, more),
        gathered(o, base, nodes, t, i, c, group, collected(nodes, c, steps, group, room), u),
    decreases room, 3int, 0int,
{
    reveal(sound);
    reveal(left);
    reveal(busy);
    let rest = group_ids(group);
    let all = seq![c] + rest;
    assert(i != no_node());
    assert(o.below(i, c));
    assert(busy(o, base, nodes, t, i, all)) by {
        assert forall|m: int| 0 <= m < all.len() implies o.clear(nodes, #[trigger] all[m]) && o.below(i, all[m]) by {
            if m > 0 {
                assert(all[m] == rest[m - 1]);
            }
        }
        assert forall|m: int, l: int| 0 <= m < l < all.len() implies apart(o.spans, #[trigger] all[m], #[trigger] all[l]) by {
            assert(all[l] == rest[l - 1]);
            if m > 0 {
                assert(all[m] == rest[m - 1]);
            }
        }
    }
    if c != no_node() {
        assert(composed(o.nodes, o.spans, 0, c.index as int));
        assert(o.inside(c.index as int, c));
        assert(nodes[c.index as int] == o.nodes[c.index as int]);
    }
    let u = lemma_processed(o, nodes, t, c, (room - 1) as nat, (more - 1) as nat);
    match processed(nodes, c, (room - 1) as nat) {
        Err(_) => u,
        Ok((n1, p)) => {
            assert(all[0] == c);
            assert(all.skip(1) =~= rest);
            lemma_next_one(o, base, nodes, t, i, all, n1, p, u);
            lemma_placed_on(o, t, u, i, steps);
            match node_at(n1, p) {
                Some(Node::Path { steps: ps, group: g, .. }) => {
                    let x = p.index as int;
                    assert(falls(n1, u, x));
                    assert forall|k: int| 0 <= k < (steps + ps).len() implies placed(o, u, i, #[trigger] (steps + ps)[k]) by {
                        if k < steps.len() {
                            assert((steps + ps)[k] == steps[k]);
                        } else {
                            assert((steps + ps)[k] == ps[k - steps.len()]);
                            assert(children(n1[x])[k - steps.len()] == ps[k - steps.len()]);
                        }
                    }
                    u
                },
                Some(Node::StringLit { value, pos }) => {
                    let n = name_node(value, pos);
                    if n1.len() >= MAX_NODES {
                        u
                    } else {
                        assert(c != no_node());
                        assert(children(n).len() == 0);
                        let v = lemma_name_added(o, base, n1, u, i, rest, c, n);
                        lemma_placed_on(o, u, v, i, steps);
                        assert forall|j: int| 0 <= j < o.nodes.len() && !o.inside(j, c) implies #[trigger] n1.push(n)[j]
                            == nodes[j] by {
                            assert(n1[j] == nodes[j]);
                        }
                        v
                    }
                },
                _ => u,
            }
        },
    }
}

#[verifier::spinoff_prover]
proof fn lemma_collected_dot(
    o: Plot,
    base: Seq<Node>,
    nodes: Seq<Node>,
    t: Spans,
    i: NodeId,
    c: NodeId,
    steps: Seq<NodeId>,
    group: Option<Group>,
    room: nat,
    more: nat,
) -> (u: Spans)
    requires
        busy(o, base, nodes, t, i, group_ids(group)),
        o.dotted(i),
        c != no_node(),
        o.dotted(c),
        o.clear(nodes, c),
        c == i || o.below(i, c),
        all_apart(o, c, group_ids(group)),
        all_placed(o, t, i, steps),
        chain_need(o, c) <= room <= more,
    ensures
        collected(nodes, c, steps, group, room) == collected(nodes, c, steps, group, more),
        gathered(o, base, nodes, t, i, c, group, collected(nodes, c, steps, group, room), u),
    decreases room, 3int, 0int,
{
    reveal(busy);
    let x = c.index as int;
    assert(composed(o.nodes, o.spans, 0, x));
    lemma_start(o, nodes, t, c);
    let kids = children(o.nodes[x]);
    match o.nodes[x] {
        Node::Binary { lhs, rhs, group: own, .. } => if own is Some && group is Some {
            t
        } else {
            let g = if own is Some {
                own
            } else {
                group
            };
            let (r1, m1) = ((room - 1) as nat, (more - 1) as nat);
            assert(kids[0] == lhs && kids[1] == rhs);
            assert(o.below(c, lhs) && o.below(c, rhs));
            lemma_chain_group(o, base, nodes, t, i, c, lhs, rhs, own, group);
            lemma_below_both(o, i, c, lhs);
            lemma_below_both(o, i, c, rhs);
            lemma_chain_need(o, c, lhs);
            lemma_chain_need(o, c, rhs);
            let u1 = lemma_collected(o, base, nodes, t, i, lhs, steps, g, r1, m1);
            match collected(nodes, lhs, steps, g, r1) {
                Err(_) => u1,
                Ok((n1, (s1, g1))) => {
                    assert(apart(o.spans, kids[0], kids[1]));
                    lemma_still_clear(o, nodes, n1, rhs, lhs);
                    assert(all_apart(o, rhs, group_ids(g1))) by {
                        let ids = group_ids(g1);
                        if g1 != g {
                            assert forall|m: int| 0 <= m < ids.len() implies apart(o.spans, rhs, #[trigger] ids[m]) by {
                                assert(o.below(lhs, ids[m]));
                            }
                        }
                    }
                    let u2 = lemma_collected(o, base, n1, u1, i, rhs, s1, g1, r1, m1);
                    match collected(n1, rhs, s1, g1, r1) {
                        Err(_) => u2,
                        Ok((n2, (s2, g2))) => {
                            lemma_framed_wider(o, nodes, nodes, n1, c, lhs);
                            lemma_framed_wider(o, nodes, n1, n2, c, rhs);
                            lemma_chain_groups(o, c, lhs, rhs, kids, own, group, g1, g2);
                            u2
                        },
                    }
                },
            }
        },
        _ => t,
    }
}

/// The room below a dot.
proof fn lemma_chain_need(o: Plot, c: NodeId, d: NodeId)
    requires
        o.wf(),
        o.has(c),
        o.dotted(c),
        c != no_node(),
        o.below(c, d),
    ensures
        chain_need(o, d) <= chain_need(o, c) - 1,
{
    assert(composed(o.nodes, o.spans, 0, c.index as int));
    if d != no_node() {
        assert(composed(o.nodes, o.spans, 0, d.index as int));
    }
}

/// The group-by that is carried on is apart from what is still to come.
proof fn lemma_chain_group(
    o: Plot,
    base: Seq<Node>,
    nodes: Seq<Node>,
    t: Spans,
    i: NodeId,
    c: NodeId,
    lhs: NodeId,
    rhs: NodeId,
    own: Option<Group>,
    group: Option<Group>,
)
    requires
        busy(o, base, nodes, t, i, group_ids(group)),
        busy(o, nodes, nodes, t, c, seq![lhs, rhs] + group_ids(own)),
        c != no_node(),
        c == i || o.below(i, c),
        all_apart(o, c, group_ids(group)),
        own is None || group is None,
    ensures
        ({
            let g = if own is Some {
                own
            } else {
                group
            };
            &&& busy(o, base, nodes, t, i, group_ids(g))
            &&& all_apart(o, lhs, group_ids(g))
            &&& all_apart(o, rhs, group_ids(g))
        }),
{
    reveal(busy);
    let kids = seq![lhs, rhs] + group_ids(own);
    assert(kids[0] == lhs && kids[1] == rhs);
    if own is Some {
        let ids = group_ids(own);
        assert forall|m: int| 0 <= m < ids.len() implies o.clear(nodes, #[trigger] ids[m]) && o.below(i, ids[m]) by {
            assert(ids[m] == kids[m + 2]);
            lemma_below_both(o, i, c, ids[m]);
        }
        assert forall|m: int, l: int| 0 <= m < l < ids.len() implies apart(o.spans, #[trigger] ids[m], #[trigger] ids[l]) by {
            assert(ids[m] == kids[m + 2] && ids[l] == kids[l + 2]);
        }
        assert forall|m: int| 0 <= m < ids.len() implies apart(o.spans, lhs, #[trigger] ids[m]) by {
            assert(ids[m] == kids[m + 2]);
            assert(apart(o.spans, kids[0], kids[m + 2]));
        }
        assert forall|m: int| 0 <= m < ids.len() implies apart(o.spans, rhs, #[trigger] ids[m]) by {
            assert(ids[m] == kids[m + 2]);
            assert(apart(o.spans, kids[1], kids[m + 2]));
        }
    } else {
        let ids = group_ids(group);
        assert(o.below(c, kids[0]) && o.below(c, kids[1]));
        assert forall|m: int| 0 <= m < ids.len() implies apart(o.spans, lhs, #[trigger] ids[m]) by {
            assert(o.below(i, ids[m]));
            lemma_apart_below(o, c, lhs, ids[m]);
        }
        assert forall|m: int| 0 <= m < ids.len() implies apart(o.spans, rhs, #[trigger] ids[m]) by {
            assert(o.below(i, ids[m]));
            lemma_apart_below(o, c, rhs, ids[m]);
        }
    }
}

/// Where the group-by of a chain comes from.
proof fn lemma_chain_groups(
    o: Plot,
    c: NodeId,
    lhs: NodeId,
    rhs: NodeId,
    kids: Seq<NodeId>,
    own: Option<Group>,
    group: Option<Group>,
    g1: Option<Group>,
    g2: Option<Group>,
)
    requires
        c != no_node(),
        kids == seq![lhs, rhs] + group_ids(own),
        all_below(o, c, kids),
        own is None || group is None,
        ({
            let g = if own is Some {
                own
            } else {
                group
            };
            g1 == g || (g is None && lhs != no_node() && all_below(o, lhs, group_ids(g1)))
        }),
        g2 == g1 || (g1 is None && rhs != no_node() && all_below(o, rhs, group_ids(g2))),
    ensures
        g2 == group || (group is None && all_below(o, c, group_ids(g2))),
{
    let ids = group_ids(g2);
    assert(kids[0] == lhs && kids[1] == rhs);
    assert(o.below(c, kids[0]) && o.below(c, kids[1]));
    if g2 != group {
        assert forall|m: int| 0 <= m < ids.len() implies o.below(c, #[trigger] ids[m]) by {
            if own is Some {
                assert(ids[m] == kids[m + 2]);
            } else if g2 == g1 {
                lemma_below_both(o, c, lhs, ids[m]);
            } else {
                lemma_below_both(o, c, rhs, ids[m]);
            }
        }
    }
}

#[verifier::spinoff_prover]
proof fn lemma_dot(
    o: Plot,
    nodes: Seq<Node>,
    t: Spans,
    i: NodeId,
    room: nat,
    more: nat,
) -> (u: Spans)
    requires
        o.wf(),
        sound(o, nodes, t),
        o.has(i),
        o.clear(nodes, i),
        o.dotted(i),
        o.need(i) - 1 <= room <= more,
    ensures
        reworked(nodes, i, room) == reworked(nodes, i, more),
        finished(o, nodes, t, reworked(nodes, i, room), i, u),
    decreases room, 5int, 0int,
{
    reveal(sound);
    reveal(busy);
    let x = i.index as int;
    lemma_start(o, nodes, t, i);
    let kids = children(o.nodes[x]);
    lemma_busy_skip(o, nodes, nodes, t, i, kids, kids.len() as int);
    assert(kids.skip(kids.len() as int) =~= Seq::<NodeId>::empty());
    assert(i != no_node());
    let u = lemma_collected(o, nodes, nodes, t, i, i, Seq::empty(), None, room, more);
    match collected(nodes, i, Seq::empty(), None, room) {
        Err(_) => u,
        Ok((n1, (steps, group))) => {
            let pos = match node_at(n1, i) {
                Some(n) => node_pos(n),
                None => 0,
            };
            let keep = any_keeps(n1, steps, 0);
            match group {
                None => {
                    let n = Node::Path { steps, keep_singleton_array: keep, group: None, pos };
                    assert(children(n) =~= steps);
                    lemma_close(o, nodes, n1, t, u, i, n, steps);
                    u
                },
                Some(g) => {
                    assert(g.pairs.skip(0) =~= g.pairs);
                    assert(pair_ids(Seq::empty()) =~= Seq::<NodeId>::empty());
                    let v = lemma_pairs(o, nodes, n1, u, i, g.pairs, 0, Seq::empty(), room, more);
                    match pairs_processed(n1, g.pairs, 0, Seq::empty(), room) {
                        Err(_) => v,
                        Ok((n2, pairs)) => {
                            let n = Node::Path {
                                steps,
                                keep_singleton_array: keep,
                                group: Some(Group { pairs, pos: g.pos }),
                                pos,
                            };
                            let put = steps + pair_ids(pairs) + Seq::<NodeId>::empty();
                            assert(children(n) =~= put);
                            lemma_three(o, u, v, v, i, steps, pair_ids(pairs), Seq::empty());
                            lemma_close(o, nodes, n2, t, v, i, n, put);
                            v
                        },
                    }
                },
            }
        },
    }
}

// ── Laws ─────────────────────────────────────────────────────────────────────

/// A tree is processed the same however much room there is beyond what its
/// number of nodes asks for, so none is refused for being deep; and what comes
/// out has no node that is part of itself, and a root that is there.
pub proof fn law_processing_a_tree(nodes: Seq<Node>, root: NodeId, more: nat)
    requires
        is_tree(nodes, root),
        more >= room_for(nodes.len()),
    ensures
        processed(nodes, root, more) == processed(nodes, root, room_for(nodes.len())),
        processed(nodes, root, more) matches Ok((after, id)) ==> acyclic(after) && (nodes.len() > 0 ==> id.index
            < after.len()),
{
    reveal(sound);
    reveal(left);
    let spans = if nodes.len() == 0 {
        Seq::empty()
    } else {
        choose|spans: Spans| whole(nodes, spans, 0, root)
    };
    let o = Plot { nodes, spans };
    assert(o.wf());
    let t = Seq::new(nodes.len(), |j: int| (2 * spans[j].0, 2 * spans[j].1));
    assert forall|j: int| 0 <= j < nodes.len() implies #[trigger] falls(nodes, t, j) by {
        assert(composed(nodes, spans, 0, j));
        let kids = children(nodes[j]);
        assert forall|k: int| 0 <= k < kids.len() implies #[trigger] kids[k] == no_node() || (kids[k].index < nodes.len()
            && t[j].0 <= t[kids[k].index as int].0 && t[kids[k].index as int].1 < t[j].1) by {
            assert(within(nodes, spans, 0, j, kids[k]));
        }
    }
    assert(o.clear(nodes, root));
    let u = lemma_processed(o, nodes, t, root, room_for(nodes.len()), more);
    match processed(nodes, root, room_for(nodes.len())) {
        Err(_) => {},
        Ok((after, id)) => {
            lemma_falls_acyclic(after, u);
        },
    }
}

proof fn lemma_falls_acyclic(nodes: Seq<Node>, t: Spans)
    requires
        nodes.len() <= MAX_NODES,
        forall|j: int| 0 <= j < nodes.len() ==> #[trigger] falls(nodes, t, j),
    ensures
        acyclic(nodes),
{
    let rank = |i: u32| t[i as int].1 as nat;
    assert forall|i: u32, k: int|
        i < nodes.len() && 0 <= k < children(nodes[i as int]).len() && (#[trigger] children(
            nodes[i as int],
        )[k]).index < nodes.len() implies rank(children(nodes[i as int])[k].index) < #[trigger] rank(i) by {
        assert(falls(nodes, t, i as int));
        let c = children(nodes[i as int])[k];
        assert(falls(nodes, t, c.index as int));
    }
    assert(ranked(nodes, rank));
}

} // verus!
