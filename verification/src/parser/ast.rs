//! The syntax tree of an expression, held in an arena.
use vstd::prelude::*;

use crate::error::{bare_fault, fault, JsonataError};
use crate::number::Number;

verus! {

/// A binary operator.
#[derive(Clone, Copy, Debug, PartialEq, Eq, Hash, Structural)]
pub enum BinaryOp {
    Add,
    Sub,
    Mul,
    Div,
    Mod,
    Pow,
    Concat,
    Eq,
    Ne,
    Lt,
    Le,
    Gt,
    Ge,
    And,
    Or,
    In,
    Chain,
    NullCoal,
    CondTern,
    Subscript,
    Range,
    ObjConst,
    /// A step of a path, before paths are flattened.
    Dot,
    Sort,
    Assign,
    Pipe,
}

/// How a binary operator is written.
pub open spec fn binary_symbol(op: BinaryOp) -> Seq<char> {
    match op {
        BinaryOp::Add => "+"@,
        BinaryOp::Sub => "-"@,
        BinaryOp::Mul => "*"@,
        BinaryOp::Div => "/"@,
        BinaryOp::Mod => "%"@,
        BinaryOp::Pow => "**"@,
        BinaryOp::Concat => "&"@,
        BinaryOp::Eq => "="@,
        BinaryOp::Ne => "!="@,
        BinaryOp::Lt => "<"@,
        BinaryOp::Le => "<="@,
        BinaryOp::Gt => ">"@,
        BinaryOp::Ge => ">="@,
        BinaryOp::And => "and"@,
        BinaryOp::Or => "or"@,
        BinaryOp::In => "in"@,
        BinaryOp::Chain => "~>"@,
        BinaryOp::NullCoal => "??"@,
        BinaryOp::CondTern => "?:"@,
        BinaryOp::Subscript => "["@,
        BinaryOp::Range => ".."@,
        BinaryOp::ObjConst => "{"@,
        BinaryOp::Dot => "."@,
        BinaryOp::Sort => "^"@,
        BinaryOp::Assign => ":="@,
        BinaryOp::Pipe => "|"@,
    }
}

impl BinaryOp {
    /// How the operator is written.
    pub fn as_str(self) -> (r: &'static str)
        ensures
            r@ == binary_symbol(self),
    {
        match self {
            BinaryOp::Add => "+",
            BinaryOp::Sub => "-",
            BinaryOp::Mul => "*",
            BinaryOp::Div => "/",
            BinaryOp::Mod => "%",
            BinaryOp::Pow => "**",
            BinaryOp::Concat => "&",
            BinaryOp::Eq => "=",
            BinaryOp::Ne => "!=",
            BinaryOp::Lt => "<",
            BinaryOp::Le => "<=",
            BinaryOp::Gt => ">",
            BinaryOp::Ge => ">=",
            BinaryOp::And => "and",
            BinaryOp::Or => "or",
            BinaryOp::In => "in",
            BinaryOp::Chain => "~>",
            BinaryOp::NullCoal => "??",
            BinaryOp::CondTern => "?:",
            BinaryOp::Subscript => "[",
            BinaryOp::Range => "..",
            BinaryOp::ObjConst => "{",
            BinaryOp::Dot => ".",
            BinaryOp::Sort => "^",
            BinaryOp::Assign => ":=",
            BinaryOp::Pipe => "|",
        }
    }
}

/// A unary operator: negation, or a constructor.
#[derive(Clone, Copy, Debug, PartialEq, Eq, Hash, Structural)]
pub enum UnaryOp {
    Negate,
    ArrayCons,
    ObjCons,
}

/// How a unary operator is written.
pub open spec fn unary_symbol(op: UnaryOp) -> Seq<char> {
    match op {
        UnaryOp::Negate => "-"@,
        UnaryOp::ArrayCons => "["@,
        UnaryOp::ObjCons => "{"@,
    }
}

impl UnaryOp {
    /// How the operator is written.
    pub fn as_str(self) -> (r: &'static str)
        ensures
            r@ == unary_symbol(self),
    {
        match self {
            UnaryOp::Negate => "-",
            UnaryOp::ArrayCons => "[",
            UnaryOp::ObjCons => "{",
        }
    }
}

/// Index of a node in its arena.
#[derive(Clone, Copy, Debug, PartialEq, Eq, Hash, Structural)]
pub struct NodeId {
    pub index: u32,
}

/// The index that stands for no node.
pub open spec fn no_node() -> NodeId {
    NodeId { index: u32::MAX }
}

impl NodeId {
    /// The index that stands for no node.
    pub fn empty() -> (r: NodeId)
        ensures
            r == no_node(),
    {
        NodeId { index: u32::MAX }
    }

    pub fn is_empty(self) -> (r: bool)
        ensures
            r == (self == no_node()),
    {
        self.index == u32::MAX
    }
}

/// A term of an order-by.
#[derive(Clone, Copy, Debug)]
pub struct SortTerm {
    pub descending: bool,
    pub expression: NodeId,
}

/// A predicate or an index binding of a path step.
#[derive(Debug)]
pub struct Stage {
    pub kind: StageKind,
    pub pos: usize,
}

#[derive(Debug)]
pub enum StageKind {
    Filter { expression: NodeId },
    Index { var_name: String },
}

/// A group-by: pairs of a key and a value expression.
#[derive(Debug)]
pub struct GroupExpr {
    pub pairs: Vec<(NodeId, NodeId)>,
    pub pos: usize,
}

/// What a parent reference refers to.
#[derive(Debug)]
pub struct Slot {
    pub label: String,
    pub level: i32,
    pub index: i32,
}

/// The signature of a function.
#[derive(Debug)]
pub struct Signature {
    /// Source text, angle brackets included.
    pub raw: String,
    /// The parameters that it declares, by the number that the evaluator knows
    /// them by.
    pub params: usize,
}

/// A node of the syntax tree.
#[allow(inconsistent_fields)]
#[derive(Debug)]
pub enum Expr {
    /// A field by its name.
    Name {
        value: String,
        pos: usize,
        keep_array: bool,
        stages: Vec<Stage>,
        group: Option<GroupExpr>,
        focus: Option<String>,
        index: Option<String>,
    },
    StringLit { value: String, pos: usize },
    NumberLit { value: Number, raw: String, pos: usize },
    /// `true`, `false` or `null`.
    ValueLit { value: String, pos: usize },
    /// A variable; the name is empty for the context and `$` for the root.
    Variable {
        name: String,
        group: Option<GroupExpr>,
        keep_array: bool,
        focus: Option<String>,
        index: Option<String>,
        pos: usize,
    },
    Wildcard { keep_array: bool, pos: usize },
    Descendant { keep_array: bool, pos: usize },
    Parent { pos: usize, slot: Option<Slot> },
    Regex { pattern: String, flags: String, pos: usize },
    /// The placeholder of a partial application.
    Placeholder { pos: usize },
    /// A flattened chain of steps.
    Path { steps: Vec<NodeId>, keep_singleton_array: bool, group: Option<GroupExpr>, pos: usize },
    Binary {
        op: BinaryOp,
        lhs: NodeId,
        rhs: NodeId,
        group: Option<GroupExpr>,
        keep_array: bool,
        focus: Option<String>,
        index: Option<String>,
        pos: usize,
    },
    /// A negation of `operand`, an array of `expressions`, or an object whose
    /// keys and values alternate in `lhs`.
    Unary {
        op: UnaryOp,
        operand: NodeId,
        expressions: Vec<NodeId>,
        lhs: Vec<NodeId>,
        group: Option<GroupExpr>,
        keep_array: bool,
        pos: usize,
    },
    Block {
        expressions: Vec<NodeId>,
        focus: Option<String>,
        index: Option<String>,
        keep_array: bool,
        pos: usize,
    },
    Condition { condition: NodeId, then_: NodeId, else_: Option<NodeId>, pos: usize },
    Bind { lhs: NodeId, rhs: NodeId, pos: usize },
    Function {
        procedure: NodeId,
        arguments: Vec<NodeId>,
        pos: usize,
        /// Whether the call stands in tail position.
        thunk: bool,
        keep_array: bool,
        group: Option<GroupExpr>,
    },
    /// A call with placeholders among its arguments.
    Partial { procedure: NodeId, arguments: Vec<NodeId>, pos: usize },
    Lambda { params: Vec<NodeId>, body: NodeId, signature: Option<Signature>, pos: usize, thunk: bool },
    Transform { pattern: NodeId, update: NodeId, delete: Option<NodeId>, pos: usize },
    Sort {
        expr: NodeId,
        terms: Vec<SortTerm>,
        keep_array: bool,
        index: Option<String>,
        focus: Option<String>,
        pos: usize,
    },
    /// A group-by on a node that has no place for one.
    Grouped { expr: NodeId, group: GroupExpr, pos: usize },
}

// ── Model ────────────────────────────────────────────────────────────────────

/// What a stage is.
pub enum Step {
    Filter { expression: NodeId, pos: usize },
    Index { var_name: Seq<char>, pos: usize },
}

/// What a group-by is.
#[verifier::ext_equal]
pub struct Group {
    pub pairs: Seq<(NodeId, NodeId)>,
    pub pos: usize,
}

/// What a node is.
#[allow(inconsistent_fields)]
#[verifier::ext_equal]
pub enum Node {
    Name {
        value: Seq<char>,
        pos: usize,
        keep_array: bool,
        stages: Seq<Step>,
        group: Option<Group>,
        focus: Option<Seq<char>>,
        index: Option<Seq<char>>,
    },
    StringLit { value: Seq<char>, pos: usize },
    NumberLit { value: Number, raw: Seq<char>, pos: usize },
    ValueLit { value: Seq<char>, pos: usize },
    Variable {
        name: Seq<char>,
        group: Option<Group>,
        keep_array: bool,
        focus: Option<Seq<char>>,
        index: Option<Seq<char>>,
        pos: usize,
    },
    Wildcard { keep_array: bool, pos: usize },
    Descendant { keep_array: bool, pos: usize },
    Parent { pos: usize, slot: Option<(Seq<char>, i32, i32)> },
    Regex { pattern: Seq<char>, flags: Seq<char>, pos: usize },
    Placeholder { pos: usize },
    Path { steps: Seq<NodeId>, keep_singleton_array: bool, group: Option<Group>, pos: usize },
    Binary {
        op: BinaryOp,
        lhs: NodeId,
        rhs: NodeId,
        group: Option<Group>,
        keep_array: bool,
        focus: Option<Seq<char>>,
        index: Option<Seq<char>>,
        pos: usize,
    },
    Unary {
        op: UnaryOp,
        operand: NodeId,
        expressions: Seq<NodeId>,
        lhs: Seq<NodeId>,
        group: Option<Group>,
        keep_array: bool,
        pos: usize,
    },
    Block {
        expressions: Seq<NodeId>,
        focus: Option<Seq<char>>,
        index: Option<Seq<char>>,
        keep_array: bool,
        pos: usize,
    },
    Condition { condition: NodeId, then_: NodeId, else_: Option<NodeId>, pos: usize },
    Bind { lhs: NodeId, rhs: NodeId, pos: usize },
    Function {
        procedure: NodeId,
        arguments: Seq<NodeId>,
        pos: usize,
        thunk: bool,
        keep_array: bool,
        group: Option<Group>,
    },
    Partial { procedure: NodeId, arguments: Seq<NodeId>, pos: usize },
    Lambda { params: Seq<NodeId>, body: NodeId, signature: Option<Declared>, pos: usize, thunk: bool },
    Transform { pattern: NodeId, update: NodeId, delete: Option<NodeId>, pos: usize },
    Sort {
        expr: NodeId,
        terms: Seq<SortTerm>,
        keep_array: bool,
        index: Option<Seq<char>>,
        focus: Option<Seq<char>>,
        pos: usize,
    },
    Grouped { expr: NodeId, group: Group, pos: usize },
}

pub open spec fn text_of_option(t: Option<String>) -> Option<Seq<char>> {
    match t {
        Some(s) => Some(s@),
        None => None,
    }
}

impl View for GroupExpr {
    type V = Group;

    open spec fn view(&self) -> Group {
        Group { pairs: self.pairs@, pos: self.pos }
    }
}

pub open spec fn group_of_option(g: Option<GroupExpr>) -> Option<Group> {
    match g {
        Some(g) => Some(g@),
        None => None,
    }
}

impl View for Stage {
    type V = Step;

    open spec fn view(&self) -> Step {
        match self.kind {
            StageKind::Filter { expression } => Step::Filter { expression, pos: self.pos },
            StageKind::Index { var_name } => Step::Index { var_name: var_name@, pos: self.pos },
        }
    }
}

pub open spec fn steps_of(s: Seq<Stage>) -> Seq<Step> {
    s.map_values(|t: Stage| t@)
}

pub open spec fn slot_of_option(s: Option<Slot>) -> Option<(Seq<char>, i32, i32)> {
    match s {
        Some(s) => Some((s.label@, s.level, s.index)),
        None => None,
    }
}

/// A signature as contracts speak of it.
pub struct Declared {
    pub raw: Seq<char>,
    pub params: usize,
}

impl View for Signature {
    type V = Declared;

    open spec fn view(&self) -> Declared {
        Declared { raw: self.raw@, params: self.params }
    }
}

pub open spec fn signature_of_option(s: Option<Signature>) -> Option<Declared> {
    match s {
        Some(s) => Some(s@),
        None => None,
    }
}

impl View for Expr {
    type V = Node;

    open spec fn view(&self) -> Node {
        match *self {
            Expr::Name { value, pos, keep_array, stages, group, focus, index } => Node::Name {
                value: value@,
                pos,
                keep_array,
                stages: steps_of(stages@),
                group: group_of_option(group),
                focus: text_of_option(focus),
                index: text_of_option(index),
            },
            Expr::StringLit { value, pos } => Node::StringLit { value: value@, pos },
            Expr::NumberLit { value, raw, pos } => Node::NumberLit { value, raw: raw@, pos },
            Expr::ValueLit { value, pos } => Node::ValueLit { value: value@, pos },
            Expr::Variable { name, group, keep_array, focus, index, pos } => Node::Variable {
                name: name@,
                group: group_of_option(group),
                keep_array,
                focus: text_of_option(focus),
                index: text_of_option(index),
                pos,
            },
            Expr::Wildcard { keep_array, pos } => Node::Wildcard { keep_array, pos },
            Expr::Descendant { keep_array, pos } => Node::Descendant { keep_array, pos },
            Expr::Parent { pos, slot } => Node::Parent { pos, slot: slot_of_option(slot) },
            Expr::Regex { pattern, flags, pos } => Node::Regex { pattern: pattern@, flags: flags@, pos },
            Expr::Placeholder { pos } => Node::Placeholder { pos },
            Expr::Path { steps, keep_singleton_array, group, pos } => Node::Path {
                steps: steps@,
                keep_singleton_array,
                group: group_of_option(group),
                pos,
            },
            Expr::Binary { op, lhs, rhs, group, keep_array, focus, index, pos } => Node::Binary {
                op,
                lhs,
                rhs,
                group: group_of_option(group),
                keep_array,
                focus: text_of_option(focus),
                index: text_of_option(index),
                pos,
            },
            Expr::Unary { op, operand, expressions, lhs, group, keep_array, pos } => Node::Unary {
                op,
                operand,
                expressions: expressions@,
                lhs: lhs@,
                group: group_of_option(group),
                keep_array,
                pos,
            },
            Expr::Block { expressions, focus, index, keep_array, pos } => Node::Block {
                expressions: expressions@,
                focus: text_of_option(focus),
                index: text_of_option(index),
                keep_array,
                pos,
            },
            Expr::Condition { condition, then_, else_, pos } => Node::Condition { condition, then_, else_, pos },
            Expr::Bind { lhs, rhs, pos } => Node::Bind { lhs, rhs, pos },
            Expr::Function { procedure, arguments, pos, thunk, keep_array, group } => Node::Function {
                procedure,
                arguments: arguments@,
                pos,
                thunk,
                keep_array,
                group: group_of_option(group),
            },
            Expr::Partial { procedure, arguments, pos } => Node::Partial { procedure, arguments: arguments@, pos },
            Expr::Lambda { params, body, signature, pos, thunk } => Node::Lambda {
                params: params@,
                body,
                signature: signature_of_option(signature),
                pos,
                thunk,
            },
            Expr::Transform { pattern, update, delete, pos } => Node::Transform { pattern, update, delete, pos },
            Expr::Sort { expr, terms, keep_array, index, focus, pos } => Node::Sort {
                expr,
                terms: terms@,
                keep_array,
                index: text_of_option(index),
                focus: text_of_option(focus),
                pos,
            },
            Expr::Grouped { expr, group, pos } => Node::Grouped { expr, group: group@, pos },
        }
    }
}

/// Position of a node in the source.
pub open spec fn node_pos(n: Node) -> usize {
    match n {
        Node::Name { pos, .. } => pos,
        Node::StringLit { pos, .. } => pos,
        Node::NumberLit { pos, .. } => pos,
        Node::ValueLit { pos, .. } => pos,
        Node::Variable { pos, .. } => pos,
        Node::Wildcard { pos, .. } => pos,
        Node::Descendant { pos, .. } => pos,
        Node::Parent { pos, .. } => pos,
        Node::Regex { pos, .. } => pos,
        Node::Placeholder { pos } => pos,
        Node::Path { pos, .. } => pos,
        Node::Binary { pos, .. } => pos,
        Node::Unary { pos, .. } => pos,
        Node::Block { pos, .. } => pos,
        Node::Condition { pos, .. } => pos,
        Node::Bind { pos, .. } => pos,
        Node::Function { pos, .. } => pos,
        Node::Partial { pos, .. } => pos,
        Node::Lambda { pos, .. } => pos,
        Node::Transform { pos, .. } => pos,
        Node::Sort { pos, .. } => pos,
        Node::Grouped { pos, .. } => pos,
    }
}

impl Expr {
    /// Position in the source.
    pub fn pos(&self) -> (r: usize)
        ensures
            r == node_pos(self@),
    {
        match self {
            Expr::Name { pos, .. } => *pos,
            Expr::StringLit { pos, .. } => *pos,
            Expr::NumberLit { pos, .. } => *pos,
            Expr::ValueLit { pos, .. } => *pos,
            Expr::Variable { pos, .. } => *pos,
            Expr::Wildcard { pos, .. } => *pos,
            Expr::Descendant { pos, .. } => *pos,
            Expr::Parent { pos, .. } => *pos,
            Expr::Regex { pos, .. } => *pos,
            Expr::Placeholder { pos } => *pos,
            Expr::Path { pos, .. } => *pos,
            Expr::Binary { pos, .. } => *pos,
            Expr::Unary { pos, .. } => *pos,
            Expr::Block { pos, .. } => *pos,
            Expr::Condition { pos, .. } => *pos,
            Expr::Bind { pos, .. } => *pos,
            Expr::Function { pos, .. } => *pos,
            Expr::Partial { pos, .. } => *pos,
            Expr::Lambda { pos, .. } => *pos,
            Expr::Transform { pos, .. } => *pos,
            Expr::Sort { pos, .. } => *pos,
            Expr::Grouped { pos, .. } => *pos,
        }
    }
}

// ── Copies ───────────────────────────────────────────────────────────────────

pub fn copy_text(t: &Option<String>) -> (r: Option<String>)
    ensures
        text_of_option(r) == text_of_option(*t),
{
    match t {
        Some(s) => Some(s.clone()),
        None => None,
    }
}

pub fn copy_ids(s: &Vec<NodeId>) -> (r: Vec<NodeId>)
    ensures
        r@ == s@,
{
    let mut r: Vec<NodeId> = Vec::new();
    push_ids(s, &mut r);
    assert(r@ =~= s@);
    r
}

fn push_ids(s: &Vec<NodeId>, out: &mut Vec<NodeId>)
    ensures
        final(out)@ == old(out)@ + s@,
{
    let ghost before = out@;
    let mut i: usize = 0;
    while i < s.len()
        invariant
            i <= s.len(),
            out@ =~= before + s@.take(i as int),
        decreases s.len() - i,
    {
        out.push(s[i]);
        i = i + 1;
    }
    assert(s@.take(i as int) =~= s@);
}

impl Clone for GroupExpr {
    fn clone(&self) -> (r: GroupExpr)
        ensures
            r@ == self@,
    {
        let mut pairs: Vec<(NodeId, NodeId)> = Vec::new();
        let mut i: usize = 0;
        while i < self.pairs.len()
            invariant
                i <= self.pairs.len(),
                pairs@ =~= self.pairs@.take(i as int),
            decreases self.pairs.len() - i,
        {
            let (k, v) = self.pairs[i];
            pairs.push((k, v));
            i = i + 1;
        }
        assert(pairs@ =~= self.pairs@);
        GroupExpr { pairs, pos: self.pos }
    }
}

pub fn copy_group(g: &Option<GroupExpr>) -> (r: Option<GroupExpr>)
    ensures
        group_of_option(r) == group_of_option(*g),
{
    match g {
        Some(g) => Some(g.clone()),
        None => None,
    }
}

fn copy_stages(s: &Vec<Stage>) -> (r: Vec<Stage>)
    ensures
        steps_of(r@) == steps_of(s@),
{
    let mut r: Vec<Stage> = Vec::new();
    let mut i: usize = 0;
    while i < s.len()
        invariant
            i <= s.len(),
            r@.len() == i,
            steps_of(r@) =~= steps_of(s@).take(i as int),
        decreases s.len() - i,
    {
        let kind = match &s[i].kind {
            StageKind::Filter { expression } => StageKind::Filter { expression: *expression },
            StageKind::Index { var_name } => StageKind::Index { var_name: var_name.clone() },
        };
        let ghost before = r@;
        let t = Stage { kind, pos: s[i].pos };
        assert(t@ == s@[i as int]@);
        r.push(t);
        assert(steps_of(r@) =~= steps_of(before).push(t@));
        i = i + 1;
    }
    assert(steps_of(s@).take(i as int) =~= steps_of(s@));
    r
}

fn copy_terms(s: &Vec<SortTerm>) -> (r: Vec<SortTerm>)
    ensures
        r@ == s@,
{
    let mut r: Vec<SortTerm> = Vec::new();
    let mut i: usize = 0;
    while i < s.len()
        invariant
            i <= s.len(),
            r@ =~= s@.take(i as int),
        decreases s.len() - i,
    {
        r.push(s[i]);
        i = i + 1;
    }
    assert(r@ =~= s@);
    r
}

impl Clone for Expr {
    fn clone(&self) -> (r: Expr)
        ensures
            r@ == self@,
    {
        match self {
            Expr::Name { value, pos, keep_array, stages, group, focus, index } => Expr::Name {
                value: value.clone(),
                pos: *pos,
                keep_array: *keep_array,
                stages: copy_stages(stages),
                group: copy_group(group),
                focus: copy_text(focus),
                index: copy_text(index),
            },
            Expr::StringLit { value, pos } => Expr::StringLit { value: value.clone(), pos: *pos },
            Expr::NumberLit { value, raw, pos } => Expr::NumberLit { value: *value, raw: raw.clone(), pos: *pos },
            Expr::ValueLit { value, pos } => Expr::ValueLit { value: value.clone(), pos: *pos },
            Expr::Variable { name, group, keep_array, focus, index, pos } => Expr::Variable {
                name: name.clone(),
                group: copy_group(group),
                keep_array: *keep_array,
                focus: copy_text(focus),
                index: copy_text(index),
                pos: *pos,
            },
            Expr::Wildcard { keep_array, pos } => Expr::Wildcard { keep_array: *keep_array, pos: *pos },
            Expr::Descendant { keep_array, pos } => Expr::Descendant { keep_array: *keep_array, pos: *pos },
            Expr::Parent { pos, slot } => Expr::Parent {
                pos: *pos,
                slot: match slot {
                    Some(s) => Some(Slot { label: s.label.clone(), level: s.level, index: s.index }),
                    None => None,
                },
            },
            Expr::Regex { pattern, flags, pos } => Expr::Regex {
                pattern: pattern.clone(),
                flags: flags.clone(),
                pos: *pos,
            },
            Expr::Placeholder { pos } => Expr::Placeholder { pos: *pos },
            Expr::Path { steps, keep_singleton_array, group, pos } => Expr::Path {
                steps: copy_ids(steps),
                keep_singleton_array: *keep_singleton_array,
                group: copy_group(group),
                pos: *pos,
            },
            Expr::Binary { op, lhs, rhs, group, keep_array, focus, index, pos } => Expr::Binary {
                op: *op,
                lhs: *lhs,
                rhs: *rhs,
                group: copy_group(group),
                keep_array: *keep_array,
                focus: copy_text(focus),
                index: copy_text(index),
                pos: *pos,
            },
            Expr::Unary { op, operand, expressions, lhs, group, keep_array, pos } => Expr::Unary {
                op: *op,
                operand: *operand,
                expressions: copy_ids(expressions),
                lhs: copy_ids(lhs),
                group: copy_group(group),
                keep_array: *keep_array,
                pos: *pos,
            },
            Expr::Block { expressions, focus, index, keep_array, pos } => Expr::Block {
                expressions: copy_ids(expressions),
                focus: copy_text(focus),
                index: copy_text(index),
                keep_array: *keep_array,
                pos: *pos,
            },
            Expr::Condition { condition, then_, else_, pos } => Expr::Condition {
                condition: *condition,
                then_: *then_,
                else_: *else_,
                pos: *pos,
            },
            Expr::Bind { lhs, rhs, pos } => Expr::Bind { lhs: *lhs, rhs: *rhs, pos: *pos },
            Expr::Function { procedure, arguments, pos, thunk, keep_array, group } => Expr::Function {
                procedure: *procedure,
                arguments: copy_ids(arguments),
                pos: *pos,
                thunk: *thunk,
                keep_array: *keep_array,
                group: copy_group(group),
            },
            Expr::Partial { procedure, arguments, pos } => Expr::Partial {
                procedure: *procedure,
                arguments: copy_ids(arguments),
                pos: *pos,
            },
            Expr::Lambda { params, body, signature, pos, thunk } => Expr::Lambda {
                params: copy_ids(params),
                body: *body,
                signature: match signature {
                    Some(s) => Some(Signature { raw: s.raw.clone(), params: s.params }),
                    None => None,
                },
                pos: *pos,
                thunk: *thunk,
            },
            Expr::Transform { pattern, update, delete, pos } => Expr::Transform {
                pattern: *pattern,
                update: *update,
                delete: *delete,
                pos: *pos,
            },
            Expr::Sort { expr, terms, keep_array, index, focus, pos } => Expr::Sort {
                expr: *expr,
                terms: copy_terms(terms),
                keep_array: *keep_array,
                index: copy_text(index),
                focus: copy_text(focus),
                pos: *pos,
            },
            Expr::Grouped { expr, group, pos } => Expr::Grouped { expr: *expr, group: group.clone(), pos: *pos },
        }
    }
}

// ── Children ─────────────────────────────────────────────────────────────────

/// Keys and values of a group-by, in turn.
pub open spec fn pair_ids(p: Seq<(NodeId, NodeId)>) -> Seq<NodeId>
    decreases p.len(),
{
    if p.len() == 0 {
        Seq::empty()
    } else {
        pair_ids(p.drop_last()) + seq![p.last().0, p.last().1]
    }
}

pub open spec fn group_ids(g: Option<Group>) -> Seq<NodeId> {
    match g {
        Some(g) => pair_ids(g.pairs),
        None => Seq::empty(),
    }
}

/// The predicates among stages.
pub open spec fn filter_ids(s: Seq<Step>) -> Seq<NodeId>
    decreases s.len(),
{
    if s.len() == 0 {
        Seq::empty()
    } else {
        match s.last() {
            Step::Filter { expression, .. } => filter_ids(s.drop_last()).push(expression),
            _ => filter_ids(s.drop_last()),
        }
    }
}

pub open spec fn optional_id(id: Option<NodeId>) -> Seq<NodeId> {
    match id {
        Some(i) => seq![i],
        None => Seq::empty(),
    }
}

/// The nodes that a node refers to, in order.
pub open spec fn children(n: Node) -> Seq<NodeId> {
    match n {
        Node::Name { stages, group, .. } => filter_ids(stages) + group_ids(group),
        Node::Variable { group, .. } => group_ids(group),
        Node::Grouped { expr, group, .. } => seq![expr] + pair_ids(group.pairs),
        Node::Path { steps, group, .. } => steps + group_ids(group),
        Node::Binary { lhs, rhs, group, .. } => seq![lhs, rhs] + group_ids(group),
        Node::Unary { operand, expressions, lhs, group, .. } => seq![operand] + expressions + lhs + group_ids(group),
        Node::Block { expressions, .. } => expressions,
        Node::Condition { condition, then_, else_, .. } => seq![condition, then_] + optional_id(else_),
        Node::Bind { lhs, rhs, .. } => seq![lhs, rhs],
        Node::Function { procedure, arguments, group, .. } => seq![procedure] + arguments + group_ids(group),
        Node::Partial { procedure, arguments, .. } => seq![procedure] + arguments,
        Node::Lambda { body, .. } => seq![body],
        Node::Transform { pattern, update, delete, .. } => seq![pattern, update] + optional_id(delete),
        Node::Sort { expr, terms, .. } => seq![expr] + terms.map_values(|t: SortTerm| t.expression),
        Node::StringLit { .. } => Seq::empty(),
        Node::NumberLit { .. } => Seq::empty(),
        Node::ValueLit { .. } => Seq::empty(),
        Node::Wildcard { .. } => Seq::empty(),
        Node::Descendant { .. } => Seq::empty(),
        Node::Parent { .. } => Seq::empty(),
        Node::Regex { .. } => Seq::empty(),
        Node::Placeholder { .. } => Seq::empty(),
    }
}

fn push_pairs(g: &GroupExpr, out: &mut Vec<NodeId>)
    ensures
        final(out)@ == old(out)@ + pair_ids(g.pairs@),
{
    let ghost before = out@;
    let mut i: usize = 0;
    assert(g.pairs@.take(0) =~= Seq::empty());
    assert(out@ =~= before + pair_ids(g.pairs@.take(0)));
    while i < g.pairs.len()
        invariant
            i <= g.pairs.len(),
            out@ == before + pair_ids(g.pairs@.take(i as int)),
        decreases g.pairs.len() - i,
    {
        let (k, v) = g.pairs[i];
        out.push(k);
        out.push(v);
        assert(g.pairs@.take(i + 1).drop_last() =~= g.pairs@.take(i as int));
        assert(out@ =~= before + pair_ids(g.pairs@.take(i + 1)));
        i = i + 1;
    }
    assert(g.pairs@.take(i as int) =~= g.pairs@);
}

/// Append the keys and values of a group-by.
pub fn push_group_pairs(group: &Option<GroupExpr>, out: &mut Vec<NodeId>)
    ensures
        final(out)@ == old(out)@ + group_ids(group_of_option(*group)),
{
    match group {
        Some(g) => {
            push_pairs(g, out);
        },
        None => {
            assert(out@ =~= old(out)@ + Seq::<NodeId>::empty());
        },
    }
}

fn push_filters(stages: &Vec<Stage>, out: &mut Vec<NodeId>)
    ensures
        final(out)@ == old(out)@ + filter_ids(steps_of(stages@)),
{
    let ghost before = out@;
    let ghost s = steps_of(stages@);
    let mut i: usize = 0;
    assert(s.take(0) =~= Seq::empty());
    assert(out@ =~= before + filter_ids(s.take(0)));
    while i < stages.len()
        invariant
            i <= stages.len(),
            s == steps_of(stages@),
            out@ == before + filter_ids(s.take(i as int)),
        decreases stages.len() - i,
    {
        let ghost done = out@;
        assert(s.take(i + 1).drop_last() =~= s.take(i as int));
        assert(s.take(i + 1).last() == stages@[i as int]@);
        match &stages[i].kind {
            StageKind::Filter { expression } => {
                out.push(*expression);
                assert(out@ =~= before + filter_ids(s.take(i + 1)));
            },
            StageKind::Index { .. } => {},
        }
        i = i + 1;
    }
    assert(s.take(i as int) =~= s);
}

fn push_terms(terms: &Vec<SortTerm>, out: &mut Vec<NodeId>)
    ensures
        final(out)@ == old(out)@ + terms@.map_values(|t: SortTerm| t.expression),
{
    let ghost before = out@;
    let ghost all = terms@.map_values(|t: SortTerm| t.expression);
    let mut i: usize = 0;
    while i < terms.len()
        invariant
            i <= terms.len(),
            all == terms@.map_values(|t: SortTerm| t.expression),
            out@ =~= before + all.take(i as int),
        decreases terms.len() - i,
    {
        out.push(terms[i].expression);
        i = i + 1;
    }
    assert(all.take(i as int) =~= all);
}

/// Append every node that a node refers to.
pub fn push_children(expr: &Expr, out: &mut Vec<NodeId>)
    ensures
        final(out)@ == old(out)@ + children(expr@),
{
    let ghost before = out@;
    match expr {
        Expr::Name { stages, group, .. } => {
            push_filters(stages, out);
            push_group_pairs(group, out);
        },
        Expr::Variable { group, .. } => {
            push_group_pairs(group, out);
        },
        Expr::Grouped { expr: inner, group, .. } => {
            out.push(*inner);
            push_pairs(group, out);
        },
        Expr::Path { steps, group, .. } => {
            push_ids(steps, out);
            push_group_pairs(group, out);
        },
        Expr::Binary { lhs, rhs, group, .. } => {
            out.push(*lhs);
            out.push(*rhs);
            push_group_pairs(group, out);
        },
        Expr::Unary { operand, expressions, lhs, group, .. } => {
            out.push(*operand);
            push_ids(expressions, out);
            push_ids(lhs, out);
            push_group_pairs(group, out);
        },
        Expr::Block { expressions, .. } => {
            push_ids(expressions, out);
        },
        Expr::Condition { condition, then_, else_, .. } => {
            out.push(*condition);
            out.push(*then_);
            if let Some(e) = else_ {
                out.push(*e);
            }
        },
        Expr::Bind { lhs, rhs, .. } => {
            out.push(*lhs);
            out.push(*rhs);
        },
        Expr::Function { procedure, arguments, group, .. } => {
            out.push(*procedure);
            push_ids(arguments, out);
            push_group_pairs(group, out);
        },
        Expr::Partial { procedure, arguments, .. } => {
            out.push(*procedure);
            push_ids(arguments, out);
        },
        Expr::Lambda { body, .. } => {
            out.push(*body);
        },
        Expr::Transform { pattern, update, delete, .. } => {
            out.push(*pattern);
            out.push(*update);
            if let Some(d) = delete {
                out.push(*d);
            }
        },
        Expr::Sort { expr: inner, terms, .. } => {
            out.push(*inner);
            push_terms(terms, out);
        },
        Expr::StringLit { .. } => {},
        Expr::NumberLit { .. } => {},
        Expr::ValueLit { .. } => {},
        Expr::Wildcard { .. } => {},
        Expr::Descendant { .. } => {},
        Expr::Parent { .. } => {},
        Expr::Regex { .. } => {},
        Expr::Placeholder { .. } => {},
    }
    assert(out@ =~= before + children(expr@));
}

// ── Arena ────────────────────────────────────────────────────────────────────

/// Most nodes that an arena holds.
pub const MAX_NODES: usize = 100_000;

/// Bits of the properties of a node that are computed once.
pub const COMPUTED: u8 = 1;

/// The tree below the node holds a reference to the parent.
pub const PARENT_REF: u8 = 2;

/// The node, or one on its path, binds a focus or an index variable.
pub const INDEX_BINDING: u8 = 4;

/// The tree below the node uses the variables of a group-by.
pub const GROUP_BINDINGS: u8 = 8;

/// The nodes of a syntax tree.
#[derive(Debug)]
pub struct AstArena {
    pub nodes: Vec<Expr>,
    /// Properties of the nodes, for as many as they have been computed.
    pub flags: Vec<u8>,
}

pub open spec fn nodes_of(s: Seq<Expr>) -> Seq<Node> {
    s.map_values(|e: Expr| e@)
}

/// The node at an index, if there is one.
pub open spec fn node_at(nodes: Seq<Node>, id: NodeId) -> Option<Node> {
    if id.index < nodes.len() {
        Some(nodes[id.index as int])
    } else {
        None
    }
}

/// Nodes with one more, or the code of an error.
pub open spec fn allocated(nodes: Seq<Node>, n: Node) -> Result<(Seq<Node>, NodeId), Seq<char>> {
    if nodes.len() >= MAX_NODES {
        Err("S0210"@)
    } else {
        Ok((nodes.push(n), NodeId { index: nodes.len() as u32 }))
    }
}

/// The properties of a node, if they have been computed.
pub open spec fn flags_at(flags: Seq<u8>, id: NodeId) -> Option<u8> {
    if id.index < flags.len() && flags[id.index as int] & COMPUTED != 0 {
        Some(flags[id.index as int])
    } else {
        None
    }
}

proof fn lemma_nodes_push(s: Seq<Expr>, e: Expr)
    ensures
        nodes_of(s.push(e)) == nodes_of(s).push(e@),
{
    assert(nodes_of(s.push(e)) =~= nodes_of(s).push(e@));
}

impl AstArena {
    /// The nodes, as contracts speak of them.
    pub open spec fn all(self) -> Seq<Node> {
        nodes_of(self.nodes@)
    }

    pub fn new() -> (r: AstArena)
        ensures
            r.all() == Seq::<Node>::empty(),
            r.flags@ == Seq::<u8>::empty(),
    {
        let r = AstArena { nodes: Vec::new(), flags: Vec::new() };
        assert(r.all() =~= Seq::<Node>::empty());
        r
    }

    /// Add a node.
    pub fn add_node(&mut self, expr: Expr) -> (r: Result<NodeId, JsonataError>)
        ensures
            final(self).flags == old(self).flags,
            match r {
                Ok(id) => allocated(old(self).all(), expr@) == Ok::<(Seq<Node>, NodeId), Seq<char>>(
                    (final(self).all(), id),
                ) && id.index < final(self).all().len() && id != no_node(),
                Err(e) => final(self).all() == old(self).all() && allocated(old(self).all(), expr@) == Err::<
                    (Seq<Node>, NodeId),
                    Seq<char>,
                >(e.code@) && fault(e) == bare_fault(e.code@),
            },
    {
        if self.nodes.len() >= MAX_NODES {
            return Err(JsonataError::new("S0210", "expression too complex (too many AST nodes)"));
        }
        let id: u32 = self.nodes.len() as u32;
        proof {
            lemma_nodes_push(self.nodes@, expr);
        }
        self.nodes.push(expr);
        Ok(NodeId { index: id })
    }

    /// The node at an index of this arena.
    pub fn get(&self, id: NodeId) -> (r: &Expr)
        requires
            id.index < self.all().len(),
        ensures
            node_at(self.all(), id) == Some(r@),
    {
        assert(self.all()[id.index as int] == self.nodes@[id.index as int]@);
        &self.nodes[id.index as usize]
    }

    /// The node at an index, if it is one of this arena.
    pub fn try_get(&self, id: NodeId) -> (r: Option<&Expr>)
        ensures
            match r {
                Some(e) => node_at(self.all(), id) == Some(e@),
                None => node_at(self.all(), id) is None,
            },
    {
        if (id.index as usize) < self.nodes.len() {
            Some(self.get(id))
        } else {
            None
        }
    }

    /// The node at an index of this arena, to be changed.
    pub fn get_mut(&mut self, id: NodeId) -> (r: &mut Expr)
        requires
            id.index < old(self).all().len(),
        ensures
            *r == old(self).nodes@[id.index as int],
            final(self).nodes@ == old(self).nodes@.update(id.index as int, *final(r)),
            final(self).flags == old(self).flags,
    {
        &mut self.nodes[id.index as usize]
    }

    /// Put a node in the place of another.
    pub fn put(&mut self, id: NodeId, expr: Expr)
        requires
            id.index < old(self).all().len(),
        ensures
            final(self).all() == old(self).all().update(id.index as int, expr@),
            final(self).flags == old(self).flags,
    {
        let ghost before = self.nodes@;
        self.nodes.set(id.index as usize, expr);
        assert(nodes_of(self.nodes@) =~= nodes_of(before).update(id.index as int, expr@));
    }

    pub fn len(&self) -> (r: usize)
        ensures
            r == self.all().len(),
    {
        self.nodes.len()
    }

    pub fn is_empty(&self) -> (r: bool)
        ensures
            r == (self.all().len() == 0),
    {
        self.nodes.len() == 0
    }

    /// The properties of a node, if they have been computed.
    pub fn node_static_flags(&self, id: NodeId) -> (r: Option<u8>)
        ensures
            r == flags_at(self.flags@, id),
    {
        if (id.index as usize) < self.flags.len() {
            let f: u8 = self.flags[id.index as usize];
            if f & COMPUTED != 0 {
                return Some(f);
            }
        }
        None
    }

    /// Record the properties of a node of this arena.
    pub fn set_node_static_flags(&mut self, id: NodeId, f: u8)
        requires
            id.index < old(self).all().len(),
        ensures
            final(self).nodes == old(self).nodes,
            final(self).flags@.len() >= old(self).flags@.len(),
            id.index < final(self).flags@.len(),
            forall|i: int|
                0 <= i < final(self).flags@.len() ==> final(self).flags@[i] == if i == id.index {
                    f
                } else if i < old(self).flags@.len() {
                    old(self).flags@[i]
                } else {
                    0
                },
    {
        let n: usize = self.nodes.len();
        while self.flags.len() < n
            invariant
                self.nodes == old(self).nodes,
                n == self.nodes@.len(),
                self.flags@.len() >= old(self).flags@.len(),
                forall|i: int|
                    0 <= i < self.flags@.len() ==> self.flags@[i] == if i < old(self).flags@.len() {
                        old(self).flags@[i]
                    } else {
                        0
                    },
            decreases (if self.flags@.len() < n { n - self.flags@.len() } else { 0 }),
        {
            self.flags.push(0);
        }
        self.flags.set(id.index as usize, f);
    }
}

} // verus!
