//! Whole expressions, run by a small evaluator over the library.
use std::cell::{Cell, RefCell};
use std::rc::Rc;

use jsntrs::environment::Environment;
use jsntrs::error::{JsonataError, JsonataResult};
use jsntrs::expression::Expression;
use jsntrs::number::Number;
use jsntrs::parser::ast::{AstArena, BinaryOp, Expr, NodeId, StageKind, UnaryOp};
use jsntrs::parser::process::process_ast;
use jsntrs::parser::Parser;
use jsntrs::stdlib::dispatch::{call_aware, call_standard};
use jsntrs::stdlib::hof_fast::{
    analyze_lambda, analyze_mapped_call, callee, exec_mapped_call, get_field, PredicateClause, SimpleLambda,
    TemplatePiece,
};
use jsntrs::stdlib::regex_cache::{RegexCache, REGEX_CACHE_CAP};
use jsntrs::stdlib::regex::{compile_regex, compile_regex_arg};
use jsntrs::stdlib::string_funcs::fn_string;
use jsntrs::stdlib::{register_all, returns_sequence};
use jsntrs::stream::{MetricsHook, StreamEvaluator};
use jsntrs::value::{
    apply_arithmetic, collapse_sequence, Callable, CompareOp, FunctionValue, Lambda, ObjectMap, Sequence, Value,
};

fn number(x: f64) -> Value {
    Value::Number(Number { bits: x.to_bits() })
}

fn float(n: Number) -> f64 {
    f64::from_bits(n.bits)
}

/// What the inside of a signature is read as: this evaluator knows no
/// parameters.
fn read(_inner: &str) -> Result<usize, JsonataError> {
    Ok(0)
}

// ── The evaluator ────────────────────────────────────────────────────────────

/// A function of the host.
type CustomFunc = Box<dyn Fn(&[Value], &Value) -> JsonataResult>;

/// Names bound in a scope, and the scope around it.
struct Frame {
    bindings: ObjectMap,
    parent: Option<usize>,
}

struct Host<'a> {
    arena: &'a AstArena,
    frames: RefCell<Vec<Frame>>,
    customs: &'a [CustomFunc],
    cancelled: bool,
    depth: &'a Cell<u32>,
}

fn items_of(v: Value) -> Vec<Value> {
    match v {
        Value::Array(a) => a,
        Value::Sequence(s) => s.values,
        Value::Undefined => Vec::new(),
        other => vec![other],
    }
}

impl<'a> Host<'a> {
    fn lookup(&self, scope: usize, name: &str) -> Option<Value> {
        let frames = self.frames.borrow();
        let mut at = Some(scope);
        while let Some(i) = at {
            if let Some(v) = frames[i].bindings.get(name) {
                return Some(v.clone());
            }
            at = frames[i].parent;
        }
        None
    }

    fn open(&self, parent: usize) -> usize {
        let mut frames = self.frames.borrow_mut();
        frames.push(Frame { bindings: ObjectMap::new(), parent: Some(parent) });
        frames.len() - 1
    }

    fn bind(&self, scope: usize, name: &str, value: Value) {
        self.frames.borrow_mut()[scope].bindings.insert(name.to_string(), value);
    }

    fn poll(&self) -> Result<(), JsonataError> {
        if self.cancelled {
            Err(JsonataError::new("D3001", "evaluation cancelled"))
        } else {
            Ok(())
        }
    }

    fn eval(&self, id: NodeId, focus: &Value, scope: usize) -> JsonataResult {
        Ok(collapse_sequence(self.eval_raw(id, focus, scope)?))
    }

    fn eval_raw(&self, id: NodeId, focus: &Value, scope: usize) -> JsonataResult {
        match self.arena.get(id) {
            Expr::StringLit { value, .. } => Ok(Value::String(value.clone())),
            Expr::NumberLit { value, .. } => Ok(Value::Number(*value)),
            Expr::ValueLit { value, .. } => Ok(match value.as_str() {
                "true" => Value::Bool(true),
                "false" => Value::Bool(false),
                _ => Value::Null,
            }),
            Expr::Regex { pattern, flags, .. } => {
                let mut o = ObjectMap::new();
                o.insert("pattern".to_string(), Value::String(pattern.clone()));
                o.insert("flags".to_string(), Value::String(flags.clone()));
                Ok(Value::Object(o))
            }
            Expr::Variable { name, .. } => {
                if name.is_empty() {
                    Ok(focus.clone())
                } else {
                    Ok(self.lookup(scope, name).unwrap_or(Value::Undefined))
                }
            }
            Expr::Name { value, stages, .. } => {
                let mut v = get_field(focus, value);
                for stage in stages {
                    if let StageKind::Filter { expression } = &stage.kind {
                        v = self.filter(v, *expression, scope)?;
                    }
                }
                Ok(v)
            }
            Expr::Path { steps, keep_singleton_array, .. } => {
                self.path(steps, *keep_singleton_array, focus, scope)
            }
            Expr::Binary { op, lhs, rhs, .. } => self.binary(*op, *lhs, *rhs, focus, scope),
            Expr::Unary { op, operand, expressions, lhs, .. } => match op {
                UnaryOp::ArrayCons => {
                    let mut r = Vec::new();
                    for &e in expressions {
                        let v = self.eval(e, focus, scope)?;
                        match (self.arena.get(e), v) {
                            (_, Value::Undefined) => {}
                            (Expr::Unary { op: UnaryOp::ArrayCons, .. }, v) => r.push(v),
                            (_, Value::Array(a)) => r.extend(a),
                            (_, v) => r.push(v),
                        }
                    }
                    Ok(Value::Array(r))
                }
                UnaryOp::ObjCons => {
                    let mut o = ObjectMap::new();
                    for pair in lhs.chunks(2) {
                        let k = self.eval(pair[0], focus, scope)?;
                        let v = self.eval(pair[1], focus, scope)?;
                        match k {
                            Value::String(k) => {
                                if !v.is_undefined() {
                                    o.insert(k, v);
                                }
                            }
                            _ => return Err(JsonataError::new("T1003", "keys must be strings")),
                        }
                    }
                    Ok(Value::Object(o))
                }
                _ => match self.eval(*operand, focus, scope)? {
                    Value::Number(n) => Ok(Value::Number(n.neg())),
                    Value::Undefined => Ok(Value::Undefined),
                    _ => Err(JsonataError::new("D1002", "cannot negate")),
                },
            },
            Expr::Block { expressions, .. } => {
                let inner = self.open(scope);
                let mut last = Value::Undefined;
                for &e in expressions {
                    last = self.eval_raw(e, focus, inner)?;
                }
                Ok(last)
            }
            Expr::Condition { condition, then_, else_, .. } => {
                if self.eval(*condition, focus, scope)?.to_boolean()? {
                    self.eval_raw(*then_, focus, scope)
                } else {
                    match else_ {
                        Some(e) => self.eval_raw(*e, focus, scope),
                        None => Ok(Value::Undefined),
                    }
                }
            }
            Expr::Bind { lhs, rhs, .. } => {
                let v = self.eval(*rhs, focus, scope)?;
                match self.arena.get(*lhs) {
                    Expr::Variable { name, .. } => self.bind(scope, name, v.clone()),
                    _ => unreachable!(),
                }
                Ok(v)
            }
            Expr::Lambda { params, body, signature, .. } => {
                let names = params
                    .iter()
                    .map(|&p| match self.arena.get(p) {
                        Expr::Variable { name, .. } => name.clone(),
                        _ => unreachable!(),
                    })
                    .collect();
                Ok(Value::Function(FunctionValue::Lambda(Lambda {
                    params: names,
                    body: *body,
                    typed: signature.is_some(),
                    closure: scope,
                })))
            }
            Expr::Function { procedure, arguments, .. } => {
                let f = self.eval(*procedure, focus, scope)?.require_function()?;
                let args = self.eval_all(arguments, focus, scope)?;
                self.call(&f, &args, focus)
            }
            other => panic!("not evaluated here: {other:?}"),
        }
    }

    fn eval_all(&self, ids: &[NodeId], focus: &Value, scope: usize) -> Result<Vec<Value>, JsonataError> {
        ids.iter().map(|&a| self.eval(a, focus, scope)).collect()
    }

    fn binary(&self, op: BinaryOp, lhs: NodeId, rhs: NodeId, focus: &Value, scope: usize) -> JsonataResult {
        match op {
            BinaryOp::And => Ok(Value::Bool(
                self.eval(lhs, focus, scope)?.to_boolean()? && self.eval(rhs, focus, scope)?.to_boolean()?,
            )),
            BinaryOp::Or => Ok(Value::Bool(
                self.eval(lhs, focus, scope)?.to_boolean()? || self.eval(rhs, focus, scope)?.to_boolean()?,
            )),
            BinaryOp::Subscript => {
                let v = self.eval(lhs, focus, scope)?;
                self.filter(v, rhs, scope)
            }
            _ => {
                let a = self.eval(lhs, focus, scope)?;
                let b = self.eval(rhs, focus, scope)?;
                match op {
                    BinaryOp::Lt => a.compare(&b, CompareOp::Lt),
                    BinaryOp::Le => a.compare(&b, CompareOp::Le),
                    BinaryOp::Gt => a.compare(&b, CompareOp::Gt),
                    BinaryOp::Ge => a.compare(&b, CompareOp::Ge),
                    BinaryOp::Eq => Ok(Value::Bool(!a.is_undefined() && !b.is_undefined() && a.deep_equal(&b))),
                    BinaryOp::Ne => Ok(Value::Bool(!a.is_undefined() && !b.is_undefined() && !a.deep_equal(&b))),
                    BinaryOp::Concat => {
                        let mut t = String::new();
                        for v in [a, b] {
                            match v {
                                Value::Undefined => {}
                                v => match fn_string(&[v], &Value::Undefined)? {
                                    Value::String(s) => t.push_str(&s),
                                    _ => unreachable!(),
                                },
                            }
                        }
                        Ok(Value::String(t))
                    }
                    BinaryOp::Range => match (a, b) {
                        (Value::Number(a), Value::Number(b)) => Ok(Value::Array(
                            (float(a) as i64..=float(b) as i64).map(|i| number(i as f64)).collect(),
                        )),
                        _ => Ok(Value::Undefined),
                    },
                    BinaryOp::Add | BinaryOp::Sub | BinaryOp::Mul | BinaryOp::Div | BinaryOp::Mod => {
                        apply_arithmetic(op, &a, &b)
                    }
                    other => panic!("not evaluated here: {other:?}"),
                }
            }
        }
    }

    fn filter(&self, v: Value, predicate: NodeId, scope: usize) -> JsonataResult {
        let items = items_of(v);
        let mut r = Vec::new();
        for (i, item) in items.iter().enumerate() {
            let keep = match self.eval(predicate, item, scope)? {
                Value::Number(n) => {
                    let at = float(n).floor();
                    let at = if at < 0.0 { at + items.len() as f64 } else { at };
                    at == i as f64
                }
                other => other.to_boolean()?,
            };
            if keep {
                r.push(item.clone());
            }
        }
        Ok(Value::Sequence(Sequence::with_items(r)))
    }

    fn path(&self, steps: &[NodeId], keep: bool, focus: &Value, scope: usize) -> JsonataResult {
        let mut items = match self.arena.get(steps[0]) {
            Expr::Variable { .. } => vec![focus.clone()],
            _ => match focus {
                Value::Array(a) => a.clone(),
                other => vec![other.clone()],
            },
        };
        for &step in steps {
            let mut next = Vec::new();
            let lifted = match callee(step, self.arena) {
                Some((name, _)) => {
                    let found = self.lookup(scope, &name).unwrap_or(Value::Undefined);
                    analyze_mapped_call(step, self.arena, None, &found)
                }
                None => None,
            };
            for item in &items {
                let v = match &lifted {
                    Some(mc) => exec_mapped_call(mc, item, scope, &|f: &FunctionValue,
                                                                    a: &Vec<Value>,
                                                                    v: &Value,
                                                                    _s: Option<usize>| {
                        self.call(f, a, v)
                    })?,
                    None => match self.arena.get(step) {
                        Expr::Function { procedure, arguments, .. } => {
                            let f = self.eval(*procedure, item, scope)?.require_function()?;
                            let mut args = self.eval_all(arguments, item, scope)?;
                            if let FunctionValue::Lambda(l) = &f {
                                if l.params.len() > args.len() {
                                    args.insert(0, item.clone());
                                }
                            }
                            self.call(&f, &args, item)?
                        }
                        _ => self.eval_raw(step, item, scope)?,
                    },
                };
                next.extend(items_of(v));
            }
            items = next;
        }
        if keep {
            return Ok(Value::Array(items));
        }
        Ok(Value::Sequence(Sequence::with_items(items)))
    }

    fn call(&self, f: &FunctionValue, args: &Vec<Value>, focus: &Value) -> JsonataResult {
        self.poll()?;
        match f {
            FunctionValue::Lambda(l) => {
                let scope = self.open(l.closure);
                for (i, p) in l.params.iter().enumerate() {
                    self.bind(scope, p, args.get(i).cloned().unwrap_or(Value::Undefined));
                }
                self.eval_raw(l.body, focus, scope)
            }
            FunctionValue::Builtin(Callable::Custom(i)) => self.customs[*i](args, focus),
            FunctionValue::Builtin(Callable::Standard(n)) => self.builtin(n, args, focus),
            FunctionValue::SignedBuiltin { func: Callable::Standard(n), .. } => self.builtin(n, args, focus),
            FunctionValue::EnvAwareBuiltin(Callable::Standard(n)) => self.aware(n, args, focus),
            other => panic!("not called here: {other:?}"),
        }
    }

    fn builtin(&self, name: &str, args: &[Value], focus: &Value) -> JsonataResult {
        let raise = |a: Number, b: Number| Number { bits: float(a).powf(float(b)).to_bits() };
        call_standard(name, args, focus, raise).expect("a function of the standard library")
    }

    fn aware(&self, name: &str, args: &[Value], focus: &Value) -> JsonataResult {
        let call = |f: &FunctionValue, a: &Vec<Value>, v: &Value, _s: Option<usize>| self.call(f, a, v);
        let poll = |_i: usize| self.poll();
        let lookup = |s: usize, n: &str| self.lookup(s, n);
        let enter = |limit: u32| {
            if self.depth.get() >= limit {
                return Err(JsonataError::new("D3121", "nested too deep"));
            }
            self.depth.set(self.depth.get() + 1);
            Ok(())
        };
        let leave = || self.depth.set(self.depth.get() - 1);
        let run = |e: &Expression, ctx: &Value| {
            let frames = self
                .frames
                .borrow()
                .iter()
                .map(|f| Frame { bindings: f.bindings.clone(), parent: f.parent })
                .collect();
            let inner = Host {
                arena: &e.arena,
                frames: RefCell::new(frames),
                customs: self.customs,
                cancelled: self.cancelled,
                depth: self.depth,
            };
            let scope = inner.open(0);
            inner.eval(e.root, ctx, scope)
        };
        call_aware(name, args, focus, self.arena, &call, &poll, &lookup, &read, &enter, &run, &leave)
            .expect("a function that asks the evaluator")
    }
}

/// Evaluate nodes on an input, with names bound.
fn run(
    arena: &AstArena,
    root: NodeId,
    input: &Value,
    bindings: ObjectMap,
    customs: &[CustomFunc],
    cancelled: bool,
) -> JsonataResult {
    let depth = Cell::new(0);
    let host = Host {
        arena,
        frames: RefCell::new(vec![Frame { bindings, parent: None }]),
        customs,
        cancelled,
        depth: &depth,
    };
    let scope = host.open(0);
    host.eval(root, input, scope)
}

fn standard(input: &Value) -> ObjectMap {
    let mut env = Environment::new();
    register_all(&mut env);
    env.bind("$", input.clone());
    env.bindings
}

fn compiled(src: &str) -> (AstArena, NodeId) {
    let (mut arena, root) = Parser::parse(src, &read).expect("parse failed");
    let root = process_ast(&mut arena, root).expect("process failed");
    (arena, root)
}

fn try_eval(src: &str, input: &Value) -> JsonataResult {
    let (arena, root) = compiled(src);
    run(&arena, root, input, standard(input), &[], false)
}

fn eval_on(src: &str, input: &Value) -> Value {
    try_eval(src, input).expect("eval failed")
}

fn eval_expr(src: &str) -> Value {
    eval_on(src, &Value::Undefined)
}

fn eval_err(src: &str) -> JsonataError {
    try_eval(src, &Value::Undefined).expect_err("expected an error")
}

/// JSON text is an expression of itself.
fn from_json(text: &str) -> Value {
    eval_expr(text)
}

fn assert_evals_to(src: &str, expected: &str) {
    let actual = eval_expr(src);
    let expected = eval_expr(expected);
    assert!(actual.deep_equal(&expected), "{src}: got {actual:?}, expected {expected:?}");
}

fn shown(v: &Value) -> String {
    format!("{v:?}")
}

fn assert_same(actual: &Value, expected: &Value) {
    assert_eq!(shown(actual), shown(expected));
}

// ── Higher-order functions ───────────────────────────────────────────────────

#[test]
fn map_passes_value_and_index() {
    assert_evals_to("$map([1,2,3], function($v){$v*2})", "[2,4,6]");
    assert_evals_to("$map([10,20], function($v,$i){$i})", "[0,1]");
}

#[test]
fn map_accepts_zero_arity_lambda() {
    assert_evals_to("$map([1,2,3], function(){5})", "[5,5,5]");
}

#[test]
fn filter_and_sift_select_matching_entries() {
    assert_evals_to("$filter([1,2,3,4], function($v){$v > 2})", "[3,4]");
    assert_evals_to(
        r#"$sift({"a":1, "b":10}, function($v){$v > 5})"#,
        r#"{"b":10}"#,
    );
}

#[test]
fn reduce_folds_with_optional_init() {
    assert_evals_to("$reduce([1,2,3,4], function($p,$c){$p+$c})", "10");
    assert_evals_to("$reduce([1,2,3], function($p,$c){$p+$c}, 10)", "16");
}

#[test]
fn each_maps_value_key_pairs() {
    assert_evals_to(
        r#"$each({"a":1, "b":2}, function($v,$k){$k & $v})"#,
        r#"["a1", "b2"]"#,
    );
}

#[test]
fn sift_and_each_trim_args_for_builtin_callbacks() {
    assert_evals_to(r#"$sift({"a":1, "b":2}, $exists)"#, r#"{"a":1, "b":2}"#);
    assert_evals_to(r#"$each({"a":1, "b":2}, $exists)"#, "[true, true]");
    assert_evals_to(r#"$sift({"a":false, "b":1}, $not)"#, r#"{"a":false}"#);
    assert_evals_to(r#"$each({"a":false, "b":1}, $not)"#, "[true, false]");
}

#[test]
fn each_supplies_object_by_arity() {
    assert_evals_to(
        r#"$each({"a":1, "b":2}, function($v,$k,$o){$count($keys($o))})"#,
        "[2, 2]",
    );
    assert_evals_to(
        r#"$each({"a":1}, function($v,$k,$o){$o})"#,
        r#"{"a":1}"#,
    );
    assert_evals_to(
        r#"$each({"a":1, "b":2}, function($v,$k,$o,$x){[$v, $k, $string($x)]})"#,
        r#"[[1, "a"], [2, "b"]]"#,
    );
    assert_evals_to(r#"$each({"a":1, "b":2}, function(){"z"})"#, r#"["z", "z"]"#);
}

#[test]
fn sort_is_stable_for_equal_keys() {
    assert_evals_to(
        r#"$sort([{"k":1,"t":"a"},{"k":1,"t":"b"},{"k":0,"t":"c"}],
                   function($l,$r){$l.k > $r.k}).t"#,
        r#"["c","a","b"]"#,
    );
    assert_evals_to(
        r#"$sort([{"k":1,"t":"a"},{"k":1,"t":"b"},{"k":0,"t":"c"}],
                   function($l,$r){$l.k > $r.k + 0}).t"#,
        r#"["c","a","b"]"#,
    );
}

#[test]
fn single_returns_the_unique_match_or_errors() {
    assert_evals_to("$single([1,2,3], function($v){$v = 2})", "2");
    let err = eval_err("$single([1,2,3], function($v){$v > 1})");
    assert_eq!(err.code, "D3138");
    let err = eval_err("$single([1,2,3], function($v){$v > 9})");
    assert_eq!(err.code, "D3139");
}

// ── Patterns ─────────────────────────────────────────────────────────────────

#[test]
fn compile_regex_applies_inline_flags() {
    assert!(compile_regex("abc", "i").unwrap().is_match("xABCy"));
    assert!(!compile_regex("abc", "").unwrap().is_match("xABCy"));
    assert_eq!(compile_regex("(", "").unwrap_err().code, "D3137");
}

#[test]
fn match_positions_stay_correct_across_many_matches() {
    let m = eval_expr(r#"$match("aéxaéxaéx", /x/).start"#);
    let expected = eval_expr("[2, 5, 8]");
    assert!(m.deep_equal(&expected), "got {m:?}");
    let m = eval_expr(r#"$match("aéxaéxaéx", /x/).end"#);
    let expected = eval_expr("[3, 6, 9]");
    assert!(m.deep_equal(&expected), "got {m:?}");
}

#[test]
fn escaped_literal_does_not_collide_with_pattern() {
    let pattern = compile_regex("a.b", "").unwrap();
    let literal = compile_regex_arg(&Value::String("a.b".into())).unwrap();
    assert!(pattern.is_match("axb"));
    assert!(!literal.is_match("axb"));
    assert!(literal.is_match("a.b"));
}

#[test]
fn cache_returns_shared_instance() {
    let mut cache = RegexCache::new();
    let a = cache.compile_regex("cache_probe_[0-9]+", "i").unwrap();
    let b = cache.compile_regex("cache_probe_[0-9]+", "i").unwrap();
    assert!(Rc::ptr_eq(&a, &b), "second compile should hit the cache");
    // Different flags are a different entry.
    let c = cache.compile_regex("cache_probe_[0-9]+", "").unwrap();
    assert!(!Rc::ptr_eq(&a, &c));
}

#[test]
fn cached_literal_does_not_collide_with_pattern() {
    let mut cache = RegexCache::new();
    let pattern = cache.compile_regex("a.b", "").unwrap();
    let literal = cache.compile_regex_arg(&Value::String("a.b".into())).unwrap();
    assert!(pattern.is_match("axb"));
    assert!(!literal.is_match("axb"));
    assert!(literal.is_match("a.b"));
    assert_eq!(cache.compile_regex("(", "").unwrap_err().code, "D3137");
    assert_eq!(cache.compile_regex_arg(&Value::Null).unwrap_err().code, "T0410");
}

#[test]
fn cache_clears_when_full_without_dropping_correctness() {
    let mut cache = RegexCache::new();
    let first = cache.compile_regex("full_probe_0_[a-z]", "").unwrap();
    for i in 0..(2 * REGEX_CACHE_CAP + 10) {
        let re = cache.compile_regex(&format!("full_probe_{i}_[a-z]"), "").unwrap();
        assert!(re.is_match(&format!("full_probe_{i}_x")));
    }
    let again = cache.compile_regex("full_probe_0_[a-z]", "").unwrap();
    assert!(!Rc::ptr_eq(&first, &again));
}

#[test]
fn match_reports_char_indices_and_groups() {
    let m = eval_expr(r#"$match("héllo world", /(l+)o/)"#);
    let expected = eval_expr(r#"{"match": "llo", "start": 2, "end": 5, "groups": ["ll"]}"#);
    assert!(m.deep_equal(&expected), "got {m:?}");
}

#[test]
fn match_limit_edge_cases() {
    assert_same(&eval_expr(r#"$count($match("ababab", /ab/, -1))"#), &number(3.0));
    assert_same(&eval_expr(r#"$count($match("ababab", /ab/, 0))"#), &number(0.0));
    assert_same(&eval_expr(r#"$count($match("ababab", /ab/, 2))"#), &number(2.0));
    assert_same(&eval_expr(r#"$count($match("ababab", /ab/, 1.9))"#), &number(1.0));
    let err = try_eval(r#"$match("ababab", /ab/, "x")"#, &Value::Undefined).unwrap_err();
    assert_eq!(err.code, "T0410");
}

#[test]
fn replace_supports_group_references() {
    let r = eval_expr(r#"$replace("John Smith", /(\w+)\s(\w+)/, "$2 $1")"#);
    assert!(
        r.deep_equal(&Value::String("Smith John".into())),
        "got {r:?}"
    );
}

#[test]
fn replace_preserves_non_ascii_replacement() {
    let r = eval_expr(r#"$replace("hello", /l/, "ü")"#);
    assert!(r.deep_equal(&Value::String("heüüo".into())), "got {r:?}");
    let r = eval_expr(r#"$replace("ab", /b/, "$€")"#);
    assert!(r.deep_equal(&Value::String("a$€".into())), "got {r:?}");
    let r = eval_expr(r#"$replace("John Smith", /(\w+)\s(\w+)/, "«$2» — «$1»")"#);
    assert!(
        r.deep_equal(&Value::String("«Smith» — «John»".into())),
        "got {r:?}"
    );
}

#[test]
fn split_by_regex() {
    let r = eval_expr(r#"$split("a1b22c", /\d+/)"#);
    let expected = eval_expr(r#"["a", "b", "c"]"#);
    assert!(r.deep_equal(&expected), "got {r:?}");
}

#[test]
fn contains_accepts_regex_patterns() {
    assert!(eval_expr(r#"$contains("abracadabra", /a.*a/)"#).deep_equal(&Value::Bool(true)));
    assert!(eval_expr(r#"$contains("abc", /\d/)"#).deep_equal(&Value::Bool(false)));
}

// ── Bodies that need no evaluator ────────────────────────────────────────────

fn analyze_src(src: &str) -> Option<SimpleLambda> {
    let (arena, root) = compiled(src);
    match run(&arena, root, &Value::Undefined, standard(&Value::Undefined), &[], false).expect("eval failed") {
        Value::Function(FunctionValue::Lambda(lam)) => analyze_lambda(&lam.params, lam.body, &arena),
        other => panic!("expected lambda, got {other:?}"),
    }
}

#[test]
fn analyzer_recognizes_field_access() {
    assert!(matches!(
        analyze_src("function($v){$v.price}"),
        Some(SimpleLambda::FieldAccess { ref field }) if field == "price"
    ));
}

#[test]
fn analyzer_recognizes_field_predicates_and_normalizes_reversed_literals() {
    assert!(matches!(
        analyze_src("function($v){$v.qty >= 10}"),
        Some(SimpleLambda::FieldPredicate {
            ref field,
            op: BinaryOp::Ge,
            literal: Value::Number(n),
        }) if field == "qty" && float(n) == 10.0
    ));
    assert!(matches!(
        analyze_src("function($v){10 < $v.qty}"),
        Some(SimpleLambda::FieldPredicate {
            ref field,
            op: BinaryOp::Gt,
            literal: Value::Number(n),
        }) if field == "qty" && float(n) == 10.0
    ));
}

#[test]
fn analyzer_recognizes_two_field_predicate() {
    assert!(matches!(
        analyze_src("function($v){$v.a = $v.b}"),
        Some(SimpleLambda::TwoFieldPredicate {
            ref field1,
            op: BinaryOp::Eq,
            ref field2,
        }) if field1 == "a" && field2 == "b"
    ));
}

#[test]
fn analyzer_recognizes_same_field_sort_comparator() {
    assert!(matches!(
        analyze_src("function($a,$b){$a.price > $b.price}"),
        Some(SimpleLambda::SortComparator { ref field, op: BinaryOp::Gt })
            if field == "price"
    ));
}

#[test]
fn analyzer_rejects_cross_field_sort_comparator() {
    assert!(analyze_src("function($a,$b){$a.x > $b.y}").is_none());
}

#[test]
fn analyzer_recognizes_reduce_accumulators() {
    assert!(matches!(
        analyze_src("function($p,$c){$p + $c.amount}"),
        Some(SimpleLambda::ReduceAccum { ref field, op: BinaryOp::Add })
            if field == "amount"
    ));
    assert!(matches!(
        analyze_src("function($p,$c){$p + $c.price * $c.qty}"),
        Some(SimpleLambda::ReduceCompoundAccum {
            ref field1,
            ref field2,
            outer_op: BinaryOp::Add,
            inner_op: BinaryOp::Mul,
        }) if field1 == "price" && field2 == "qty"
    ));
}

#[test]
fn analyzer_recognizes_concat_template_pieces() {
    let Some(SimpleLambda::ConcatTemplate { pieces }) =
        analyze_src(r#"function($v){$v.first & " " & $string($v.n)}"#)
    else {
        panic!("expected ConcatTemplate");
    };
    assert_eq!(pieces.len(), 3);
    assert!(matches!(&pieces[0], TemplatePiece::Field(f) if f == "first"));
    assert!(matches!(&pieces[1], TemplatePiece::Literal(l) if l == " "));
    assert!(matches!(&pieces[2], TemplatePiece::StringifyField(f) if f == "n"));
}

#[test]
fn analyzer_recognizes_compound_predicate() {
    let Some(SimpleLambda::CompoundPredicate { clauses, combiner }) =
        analyze_src("function($v){$v.a > 1 and $v.b < 5}")
    else {
        panic!("expected CompoundPredicate");
    };
    assert_eq!(combiner, BinaryOp::And);
    assert_eq!(clauses.len(), 2);
    assert!(matches!(
        &clauses[1],
        PredicateClause { field, op: BinaryOp::Lt, .. } if field == "b"
    ));
}

#[test]
fn analyzer_rejects_unsupported_bodies() {
    assert!(analyze_src("function($v){$v.a.b}").is_none());
    assert!(analyze_src("function($v){$x.a}").is_none());
    assert!(analyze_src("function($v){$sum($v.a)}").is_none());
    assert!(analyze_src("function(){1}").is_none());
    assert!(analyze_src("function($v){$v.a > 1 and $v.b < 5 or $v.c = 2}").is_none());
}

#[test]
fn analyzer_rejects_reversed_null_and_boolean_literals() {
    assert!(analyze_src("function($v){null > $v.x}").is_none());
    assert!(analyze_src("function($v){null < $v.x}").is_none());
    assert!(analyze_src("function($v){null >= $v.x}").is_none());
    assert!(analyze_src("function($v){false > $v.x}").is_none());
    assert!(analyze_src("function($v){true <= $v.x}").is_none());
    assert!(analyze_src("function($v){null > $v.x and $v.y = 1}").is_none());
    assert!(analyze_src("function($v){$v.y = 1 or true < $v.x}").is_none());
}

#[test]
fn analyzer_still_flips_mirrorable_literals() {
    assert!(matches!(
        analyze_src("function($v){null = $v.x}"),
        Some(SimpleLambda::FieldPredicate {
            op: BinaryOp::Eq,
            literal: Value::Null,
            ..
        })
    ));
    assert!(matches!(
        analyze_src("function($v){true != $v.x}"),
        Some(SimpleLambda::FieldPredicate {
            op: BinaryOp::Ne,
            literal: Value::Bool(true),
            ..
        })
    ));
    assert!(matches!(
        analyze_src("function($v){2 > $v.x}"),
        Some(SimpleLambda::FieldPredicate {
            op: BinaryOp::Lt,
            literal: Value::Number(n),
            ..
        }) if float(n) == 2.0
    ));
    assert!(matches!(
        analyze_src("function($v){\"s\" <= $v.x}"),
        Some(SimpleLambda::FieldPredicate {
            op: BinaryOp::Ge,
            ..
        })
    ));
    assert!(matches!(
        analyze_src("function($v){2 > $v.x and $v.y = 1}"),
        Some(SimpleLambda::CompoundPredicate { .. })
    ));
}

#[test]
fn analyzer_rejects_keep_array_paths() {
    assert!(analyze_src("function($v){$v.a[]}").is_none());
    assert!(analyze_src("function($v){$v[].a}").is_none());
    assert!(analyze_src("function($v){$v.a[] > 1}").is_none());
    assert!(analyze_src("function($v){1 < $v.a[]}").is_none());
    assert!(analyze_src("function($v){$v.a[] = $v.b}").is_none());
    assert!(analyze_src("function($v){$v.a = $v.b[]}").is_none());
    assert!(analyze_src("function($a,$b){$a.x[] > $b.x[]}").is_none());
    assert!(analyze_src("function($p,$c){$p + $c.x[]}").is_none());
    assert!(analyze_src("function($p,$c){$p + $c.x[] * $c.y}").is_none());
    assert!(analyze_src("function($v){$v.a[] > 1 and $v.b < 5}").is_none());
    assert!(analyze_src("function($v){$v.a > 1 or $v.b[] < 5}").is_none());
    assert!(analyze_src("function($v){\"id-\" & $v.a[]}").is_none());
    assert!(analyze_src("function($v){\"id-\" & $string($v.a[])}").is_none());
    assert!(analyze_src("function($v){\"id-\" & $uppercase($v.a[])}").is_none());
    assert!(analyze_src("function($v){\"id-\" & $substring($v.a[], 1)}").is_none());
}

#[test]
fn analyzer_still_lifts_without_keep_array() {
    assert!(matches!(
        analyze_src("function($v){$v.a}"),
        Some(SimpleLambda::FieldAccess { .. })
    ));
    assert!(matches!(
        analyze_src("function($v){$v.a > 1}"),
        Some(SimpleLambda::FieldPredicate { .. })
    ));
    assert!(matches!(
        analyze_src("function($v){$v.a = $v.b}"),
        Some(SimpleLambda::TwoFieldPredicate { .. })
    ));
    assert!(matches!(
        analyze_src("function($a,$b){$a.x > $b.x}"),
        Some(SimpleLambda::SortComparator { .. })
    ));
    assert!(matches!(
        analyze_src("function($p,$c){$p + $c.x}"),
        Some(SimpleLambda::ReduceAccum { .. })
    ));
    assert!(matches!(
        analyze_src("function($p,$c){$p + $c.x * $c.y}"),
        Some(SimpleLambda::ReduceCompoundAccum { .. })
    ));
    assert!(matches!(
        analyze_src("function($v){$v.a > 1 and $v.b < 5}"),
        Some(SimpleLambda::CompoundPredicate { .. })
    ));
    assert!(matches!(
        analyze_src("function($v){\"id-\" & $string($v.a)}"),
        Some(SimpleLambda::ConcatTemplate { .. })
    ));
}

fn nums_input(values: &[f64]) -> Value {
    let items: Vec<Value> = values
        .iter()
        .map(|&x| {
            let mut obj = ObjectMap::new();
            obj.insert("x".into(), number(x));
            Value::Object(obj)
        })
        .collect();
    let mut root = ObjectMap::new();
    root.insert("nums".into(), Value::Array(items));
    Value::Object(root)
}

#[test]
fn round_fast_path_matches_general_path() {
    let input = nums_input(&[0.5, 1.5, 2.5, 3.5, -0.5, -1.5, -2.5, 2.345]);
    let fast = eval_on("nums.$round(x)", &input);
    let general = eval_on("nums.($round(x + 0))", &input);
    assert!(
        fast.deep_equal(&general),
        "fast path {fast:?} != general path {general:?}"
    );
    let expected = eval_on("[0, 2, 2, 4, -0, -2, -2, 2]", &Value::Undefined);
    assert!(
        fast.deep_equal(&expected),
        "banker's rounding expected, got {fast:?}"
    );
}

#[test]
fn format_number_fast_path_honors_options_arg() {
    let input = nums_input(&[1234.56]);
    let with_opts = eval_on(
        r##"nums.$formatNumber(x, "#.###,00", {"decimal-separator": ",", "grouping-separator": "."})"##,
        &input,
    );
    let expected = eval_on(r#""1.234,56""#, &Value::Undefined);
    assert!(
        with_opts.deep_equal(&expected),
        "options ignored: got {with_opts:?}, expected {expected:?}"
    );
    let fast = eval_on(r##"nums.$formatNumber(x, "#,###.00")"##, &input);
    let general = eval_on(r##"nums.($formatNumber(x + 0, "#,###.00"))"##, &input);
    assert!(
        fast.deep_equal(&general),
        "fast path {fast:?} != general path {general:?}"
    );
}

#[test]
fn under_supplied_lambda_step_is_not_lifted() {
    let src = r#"( $f := function($a, $b){ $a.x & "/" & $b }; items.$f(y) )"#;
    let array_input =
        from_json(r#"{"items": [{"x": "p"}]}"#);
    let single_input =
        from_json(r#"{"items": {"x": "p"}}"#);
    let from_array = eval_on(src, &array_input);
    let from_single = eval_on(src, &single_input);
    assert!(
        from_array.deep_equal(&from_single),
        "array input {from_array:?} != single input {from_single:?}"
    );
    assert!(
        from_array.deep_equal(&Value::String("p/".into())),
        "context item not prepended: got {from_array:?}"
    );
}

#[test]
fn fully_supplied_lambda_step_still_lifts() {
    let input =
        from_json(r#"{"items": [{"x": "p", "y": "q"}]}"#);
    let got = eval_on(r#"( $f := function($a){ $a & "!" }; items.$f(x) )"#, &input);
    assert!(
        got.deep_equal(&Value::String("p!".into())),
        "expected \"p!\", got {got:?}"
    );
}

#[test]
fn round_fast_path_with_precision_matches_general_path() {
    let input = nums_input(&[0.25, 0.35, -0.25, 1.05]);
    let fast = eval_on("nums.$round(x, 1)", &input);
    let general = eval_on("nums.($round(x + 0, 1))", &input);
    assert!(
        fast.deep_equal(&general),
        "fast path {fast:?} != general path {general:?}"
    );
}

// ── Compiled expressions ─────────────────────────────────────────────────────

fn evaluate(expr: &Expression, input: &Value) -> JsonataResult {
    run(&expr.arena, expr.root, input, standard(input), &[], false)
}

#[test]
fn format_integer_non_finite_errors_through_evaluate_value() {
    for picture in ["w", "W;o", "i", "0"] {
        let src = format!("$formatInteger($, '{picture}')");
        let expr = Expression::compile(&src, &read).unwrap();
        for n in [f64::INFINITY, f64::NEG_INFINITY, f64::NAN] {
            let err = evaluate(&expr, &number(n)).unwrap_err();
            assert_eq!(err.code, "D3001", "picture {picture:?}, input {n}");
        }

        let from_div = Expression::compile(&format!(
            "$formatInteger(1/0, '{picture}')"
        ), &read)
        .unwrap();
        assert_eq!(
            evaluate(&from_div, &Value::Undefined).unwrap_err().code,
            "D3001",
            "1/0 with picture {picture:?}"
        );
    }
}

#[test]
fn format_number_non_finite_errors_through_evaluate_value() {
    for picture in ["0.00", "#,##0.00", "0.0e0"] {
        let src = format!("$formatNumber($, '{picture}')");
        let expr = Expression::compile(&src, &read).unwrap();
        for n in [f64::INFINITY, f64::NEG_INFINITY, f64::NAN] {
            let err = evaluate(&expr, &number(n)).unwrap_err();
            assert_eq!(err.code, "D3001", "picture {picture:?}, input {n}");
        }

        for src in [
            format!("$formatNumber(1/0, '{picture}')"),
            format!("$formatNumber(-1/0, '{picture}')"),
            format!("$formatNumber(0/0, '{picture}')"),
        ] {
            let expr = Expression::compile(&src, &read).unwrap();
            assert_eq!(
                evaluate(&expr, &Value::Undefined).unwrap_err().code,
                "D3001",
                "{src}"
            );
        }
    }
}

// ── The table of functions ───────────────────────────────────────────────────

fn registered(name: &str) -> Value {
    let mut env = Environment::new();
    register_all(&mut env);
    env.lookup(name).unwrap()
}

#[test]
fn sequence_builtins_bind_from_the_canonical_tables() {
    for name in ["filter", "keys", "lookup", "match"] {
        let Value::Function(f) = registered(name) else {
            panic!("${name} is not bound to a function")
        };
        assert!(returns_sequence(&f), "${name} lost its canonical identity");
    }
}

#[test]
fn scalar_builtins_are_not_sequence_returning() {
    for name in [
        "sum", "round", "string", "count", "reduce", "single", "sift", "merge", "map", "each",
        "spread",
    ] {
        let Value::Function(f) = registered(name) else {
            panic!("${name} is not bound to a function")
        };
        assert!(!returns_sequence(&f), "${name} claims to return a sequence");
    }
}

// ── Evaluating text ──────────────────────────────────────────────────────────

#[test]
fn eval_sees_same_stdlib_as_top_level() {
    let top = Expression::compile("$string()", &read).unwrap();
    let nested = Expression::compile(r#"$eval("$string()")"#, &read).unwrap();
    assert_same(&evaluate(&top, &from_json("5")).unwrap(), &Value::String("5".into()));
    assert_same(&evaluate(&nested, &from_json("5")).unwrap(), &Value::String("5".into()));
}

#[test]
fn eval_sees_user_override_of_stdlib_name() {
    let shout: CustomFunc = Box::new(|_args: &[Value], _focus: &Value| Ok(Value::String("overridden".into())));
    let expr = Expression::compile(r#"$eval("$uppercase('a')")"#, &read).unwrap();
    let mut env = Environment::new();
    register_all(&mut env);
    env.bind("uppercase", Value::Function(FunctionValue::Builtin(Callable::Custom(0))));
    let result = run(&expr.arena, expr.root, &from_json("{}"), env.bindings, &[shout], false).unwrap();
    assert_same(&result, &Value::String("overridden".into()));
}

// ── Many expressions ─────────────────────────────────────────────────────────

/// A value as tests look at it.
#[derive(Debug, PartialEq)]
struct Seen(String);

fn see(v: Value) -> Seen {
    Seen(shown(&v))
}

fn as_f64(v: &Value) -> Option<f64> {
    match v {
        Value::Number(n) => Some(float(*n)),
        _ => None,
    }
}

fn as_str(v: &Value) -> Option<&str> {
    match v {
        Value::String(s) => Some(s),
        _ => None,
    }
}

/// An evaluator with the functions of the host that it calls.
struct Stream {
    inner: StreamEvaluator,
    customs: Vec<CustomFunc>,
}

impl Stream {
    fn new(expressions: Vec<Expression>) -> Stream {
        Stream { inner: StreamEvaluator::new(expressions), customs: Vec::new() }
    }

    fn with_custom_functions(self, fns: Vec<(String, CustomFunc)>) -> Stream {
        let mut names = Vec::new();
        let mut customs = Vec::new();
        for (i, (name, f)) in fns.into_iter().enumerate() {
            names.push((name, i));
            customs.push(f);
        }
        Stream { inner: self.inner.with_custom_functions(names), customs }
    }

    fn add(&mut self, expr: Expression) -> usize {
        self.inner.add(expr)
    }

    fn compile(&mut self, src: &str) -> Result<usize, JsonataError> {
        self.inner.compile(src, &read)
    }

    fn replace(&mut self, idx: usize, expr: Expression) -> Result<(), JsonataError> {
        self.inner.replace(idx, expr)
    }

    fn remove(&mut self, idx: usize) -> Result<(), JsonataError> {
        self.inner.remove(idx)
    }

    fn reset(&mut self) {
        self.inner.reset()
    }

    fn len(&self) -> usize {
        self.inner.len()
    }

    fn summary(&self) -> String {
        self.inner.summary()
    }

    fn step(&self, e: &Expression, input: &Value, env: Option<&Environment>, cancelled: bool) -> (JsonataResult, bool) {
        let bindings = match env {
            Some(env) => env.bindings.clone(),
            None => standard(input),
        };
        let cancelled = cancelled && env.map_or(false, |e| e.cancel.is_some());
        (run(&e.arena, e.root, input, bindings, &self.customs, cancelled), false)
    }

    fn eval_many(&self, input: &Value, indices: &[usize]) -> Result<Vec<Option<Seen>>, JsonataError> {
        let eval = |e: &Expression, v: &Value, env: Option<&Environment>| self.step(e, v, env, false);
        Ok(self.inner.eval_many(input, indices, &eval)?.into_iter().map(|v| v.map(see)).collect())
    }

    fn eval_many_with_cancel(
        &self,
        input: &Value,
        indices: &[usize],
        cancelled: bool,
    ) -> Result<Vec<Option<Seen>>, JsonataError> {
        let eval = |e: &Expression, v: &Value, env: Option<&Environment>| self.step(e, v, env, cancelled);
        Ok(self.inner.eval_many_with_cancel(input, indices, 0, &eval)?.into_iter().map(|v| v.map(see)).collect())
    }

    fn eval_one(&self, input: &Value, idx: usize) -> Result<Seen, JsonataError> {
        let eval = |e: &Expression, v: &Value, env: Option<&Environment>| self.step(e, v, env, false);
        Ok(see(self.inner.eval_one(input, idx, &eval)?))
    }

    fn eval_one_with_cancel(&self, input: &Value, idx: usize, cancelled: bool) -> Result<Seen, JsonataError> {
        let eval = |e: &Expression, v: &Value, env: Option<&Environment>| self.step(e, v, env, cancelled);
        Ok(see(self.inner.eval_one_with_cancel(input, idx, 0, &eval)?))
    }
}

#[test]
fn compile_and_eval_one() {
    let mut se = Stream::new(Vec::new());
    let idx = se.compile("Account.Name").unwrap();
    let input =
        from_json(r#"{"Account": {"Name": "Firefly"}}"#);
    let result = se.eval_one(&input, idx).unwrap();
    assert_eq!(result, see(Value::String("Firefly".into())));
}

#[test]
fn eval_many_returns_results_per_index() {
    let mut se = Stream::new(Vec::new());
    let i0 = se.compile("Account.Name").unwrap();
    let i1 = se.compile("Account.Order[0].OrderID").unwrap();
    let input = from_json(r#"{"Account": {"Name": "Firefly", "Order": [{"OrderID": "order103"}]}}"#);
    let results = se.eval_many(&input, &[i0, i1]).unwrap();
    assert_eq!(results[0], Some(see(Value::String("Firefly".into()))));
    assert_eq!(results[1], Some(see(Value::String("order103".into()))));
}

#[test]
fn eval_many_isolates_bindings_between_expressions() {
    let input = from_json(r#"{"a": 1}"#);

    let mut se = Stream::new(Vec::new());
    let i0 = se.compile("$x := 42").unwrap();
    let i1 = se.compile("$x").unwrap();
    let i2 = se.compile("$$.a").unwrap();
    let results = se.eval_many(&input, &[i0, i1, i2]).unwrap();
    assert_eq!(results[0], Some(see(number(42.0))));
    assert_eq!(results[1], None, ":= leaked across batch expressions");
    assert_eq!(results[2], Some(see(number(1.0))));

    let double: CustomFunc = Box::new(|args, _| {
        let n = args
            .first()
            .and_then(as_f64)
            .ok_or_else(|| JsonataError::new("T0410", "number required"))?;
        Ok(number(n * 2.0))
    });
    let mut se = Stream::new(Vec::new())
        .with_custom_functions(vec![("double".to_string(), double)]);
    let i0 = se.compile("$x := $double(21)").unwrap();
    let i1 = se.compile("$x").unwrap();
    let i2 = se.compile("$$.a").unwrap();
    let results = se.eval_many(&input, &[i0, i1, i2]).unwrap();
    assert_eq!(results[0], Some(see(number(42.0))));
    assert_eq!(
        results[1], None,
        ":= leaked across batch expressions (custom env)"
    );
    assert_eq!(results[2], Some(see(number(1.0))));
}

#[test]
fn debug_summarizes_without_dumping_expressions() {
    let mut se = Stream::new(Vec::new());
    se.compile("1+1").unwrap();
    let dbg = se.summary();
    assert!(dbg.contains("StreamEvaluator"));
    assert!(dbg.contains("expressions: 1"));
}

#[test]
fn remove_produces_none() {
    let mut se = Stream::new(Vec::new());
    let idx = se.compile("1+1").unwrap();
    se.remove(idx).unwrap();
    let input = Value::Undefined;
    let results = se.eval_many(&input, &[idx]).unwrap();
    assert_eq!(results[0], None);
}

#[test]
fn replace_updates_expression() {
    let mut se = Stream::new(Vec::new());
    let idx = se.compile("1+1").unwrap();
    let input = Value::Undefined;
    assert_eq!(se.eval_one(&input, idx).unwrap(), see(number(2.0)));

    let new_expr = Expression::compile("2+2", &read).unwrap();
    se.replace(idx, new_expr).unwrap();
    assert_eq!(se.eval_one(&input, idx).unwrap(), see(number(4.0)));
}

#[test]
fn reset_clears_all() {
    let mut se = Stream::new(Vec::new());
    se.compile("1").unwrap();
    se.compile("2").unwrap();
    assert_eq!(se.len(), 2);
    se.reset();
    assert_eq!(se.len(), 0);
}

#[test]
fn out_of_range_produces_none() {
    let se = Stream::new(Vec::new());
    let results = se.eval_many(&Value::Undefined, &[999]).unwrap();
    assert_eq!(results[0], None);
}

const STREAM_TEST_DATA: &str = r#"{
    "data": {"action": "grant-access", "user_type": 2},
    "metadata": {"is_admin": true}
}"#;

fn test_input() -> Value {
    from_json(STREAM_TEST_DATA)
}

#[test]
fn compile_sequential_indices() {
    let mut se = Stream::new(Vec::new());
    let exprs = [
        r#"data.action = "grant-access""#,
        "data.user_type = 2",
        "metadata.is_admin = true",
    ];
    for (i, src) in exprs.iter().enumerate() {
        let idx = se.compile(src).unwrap();
        assert_eq!(idx, i, "expr {i} should get index {i}");
    }
    assert_eq!(se.len(), 3);

    let indices: Vec<usize> = (0..3).collect();
    let results = se.eval_many(&test_input(), &indices).unwrap();
    for (i, r) in results.iter().enumerate() {
        assert_eq!(r, &Some(see(Value::Bool(true))), "result[{i}]");
    }
}

#[test]
fn add_precompiled_expressions() {
    let cases: &[(&str, Seen)] = &[
        (r#"data.action = "grant-access""#, see(Value::Bool(true))),
        ("data.user_type = 2", see(Value::Bool(true))),
        ("metadata.is_admin = true", see(Value::Bool(true))),
        (r#"data.action != "other""#, see(Value::Bool(true))),
        ("data.user_type != 99", see(Value::Bool(true))),
        ("data.user_type", see(number(2.0))),
        ("data.user_type > 1", see(Value::Bool(true))),
        (
            "data.user_type = 2 and metadata.is_admin = true",
            see(Value::Bool(true)),
        ),
    ];
    let input = test_input();
    for (expr, want) in cases {
        let compiled = Expression::compile(expr, &read).unwrap();
        let mut se = Stream::new(Vec::new());
        let idx = se.add(compiled);
        assert_eq!(idx, 0);
        let got = se.eval_one(&input, idx).unwrap();
        assert_eq!(&got, want, "expr: {expr}");
    }
}

#[test]
fn mixed_fast_path_and_full_eval() {
    let mut se = Stream::new(Vec::new());
    let i0 = se.compile("data.user_type = 2").unwrap();
    let i1 = se.compile("data.user_type > 1").unwrap();
    let i2 = se.compile("data.user_type").unwrap();

    let results = se.eval_many(&test_input(), &[i0, i1, i2]).unwrap();
    assert_eq!(results[0], Some(see(Value::Bool(true))));
    assert_eq!(results[1], Some(see(Value::Bool(true))));
    assert_eq!(results[2], Some(see(number(2.0))));
}

#[test]
fn index_stability_after_adds() {
    let mut se = Stream::new(Vec::new());
    let i0 = se.compile(r#"data.action = "grant-access""#).unwrap();
    let i1 = se.compile("data.user_type = 2").unwrap();

    for i in 0..100 {
        se.compile(&format!("data.user_type = {}", i + 1000))
            .unwrap();
    }
    assert_eq!(se.len(), 102);

    let results = se.eval_many(&test_input(), &[i0, i1]).unwrap();
    assert_eq!(results[0], Some(see(Value::Bool(true))));
    assert_eq!(results[1], Some(see(Value::Bool(true))));
}

#[test]
fn replace_swaps_expression() {
    let mut se = Stream::new(Vec::new());
    let idx = se.compile("data.action").unwrap();
    let input = test_input();

    let got = se.eval_one(&input, idx).unwrap();
    assert_eq!(got, see(Value::String("grant-access".into())));

    let new_expr = Expression::compile("data.user_type", &read).unwrap();
    se.replace(idx, new_expr).unwrap();

    let got = se.eval_one(&input, idx).unwrap();
    assert_eq!(got, see(number(2.0)));
}

#[test]
fn remove_returns_none_keeps_others() {
    let mut se = Stream::new(Vec::new());
    let i0 = se.compile(r#"data.action = "grant-access""#).unwrap();
    let i1 = se.compile("data.user_type = 2").unwrap();

    se.remove(i0).unwrap();

    let results = se.eval_many(&test_input(), &[i0, i1]).unwrap();
    assert_eq!(results[0], None, "removed expr should be None");
    assert_eq!(results[1], Some(see(Value::Bool(true))), "kept expr should work");
}

#[test]
fn reset_allows_reuse() {
    let mut se = Stream::new(Vec::new());
    se.compile("data.action").unwrap();
    se.compile("data.user_type").unwrap();
    assert_eq!(se.len(), 2);

    se.reset();
    assert_eq!(se.len(), 0);

    let idx = se.compile("metadata.is_admin").unwrap();
    assert_eq!(idx, 0);
}

#[test]
fn custom_func_in_stream() {
    let double: CustomFunc = Box::new(|args: &[Value], _| {
        let n = args.first().and_then(as_f64).unwrap_or(0.0);
        Ok(number(n * 2.0))
    });
    let mut se =
        Stream::new(Vec::new()).with_custom_functions(vec![("double".into(), double)]);
    let idx = se.compile("$double(data.user_type)").unwrap();
    let result = se.eval_one(&test_input(), idx).unwrap();
    assert_eq!(result, see(number(4.0)));
}

#[test]
fn custom_func_with_stdlib_in_stream() {
    let greet: CustomFunc = Box::new(|args: &[Value], _| {
        let name = args.first().and_then(as_str).unwrap_or("?");
        Ok(Value::String(format!("hi {name}")))
    });
    let mut se =
        Stream::new(Vec::new()).with_custom_functions(vec![("greet".into(), greet)]);
    let idx = se.compile("$uppercase($greet(data.action))").unwrap();
    let result = se.eval_one(&test_input(), idx).unwrap();
    assert_eq!(result, see(Value::String("HI GRANT-ACCESS".into())));
}

#[test]
fn multiple_custom_funcs_in_stream() {
    let add: CustomFunc = Box::new(|args: &[Value], _| {
        let a = args.first().and_then(as_f64).unwrap_or(0.0);
        let b = args.get(1).and_then(as_f64).unwrap_or(0.0);
        Ok(number(a + b))
    });
    let mul: CustomFunc = Box::new(|args: &[Value], _| {
        let a = args.first().and_then(as_f64).unwrap_or(0.0);
        let b = args.get(1).and_then(as_f64).unwrap_or(0.0);
        Ok(number(a * b))
    });
    let mut se = Stream::new(Vec::new())
        .with_custom_functions(vec![("add".into(), add), ("mul".into(), mul)]);
    let i0 = se.compile("$add(data.user_type, 10)").unwrap();
    let i1 = se.compile("$mul(data.user_type, 3)").unwrap();
    let results = se.eval_many(&test_input(), &[i0, i1]).unwrap();
    assert_eq!(results[0], Some(see(number(12.0))));
    assert_eq!(results[1], Some(see(number(6.0))));
}

#[test]
fn stream_custom_func_overrides_builtin_fast_path() {
    let fake_sum: CustomFunc = Box::new(|_args: &[Value], _| Ok(number(999.0)));
    let input = from_json(r#"{"items": [1, 2, 3]}"#);

    let mut se =
        Stream::new(Vec::new()).with_custom_functions(vec![("sum".into(), fake_sum)]);
    let idx = se.compile("$sum(items)").unwrap();
    assert_eq!(
        se.eval_one(&input, idx).unwrap(),
        see(number(999.0)),
        "batch env ignored the custom $sum"
    );

    let mut plain = Stream::new(Vec::new());
    let idx = plain.compile("$sum(items)").unwrap();
    assert_eq!(plain.eval_one(&input, idx).unwrap(), see(number(6.0)));
}

#[test]
fn stream_no_custom_funcs_unchanged() {
    let mut se = Stream::new(Vec::new());
    let idx = se.compile("data.user_type + 1").unwrap();
    let result = se.eval_one(&test_input(), idx).unwrap();
    assert_eq!(result, see(number(3.0)));
}

#[test]
fn expression_cancel_returns_d3001() {
    let expr = Expression::compile("$reduce([1,2,3], function($a,$b){$a+$b}, 0)", &read).unwrap();
    let input = Value::Undefined;
    let err = run(&expr.arena, expr.root, &input, standard(&input), &[], true).unwrap_err();
    assert_eq!(err.code, "D3001");
}

#[test]
fn stream_cancel_returns_d3001() {
    let cancel = true;
    let mut se = Stream::new(Vec::new());
    let idx = se
        .compile("$reduce([1,2,3], function($a,$b){$a+$b}, 0)")
        .unwrap();
    let err = se
        .eval_many_with_cancel(&test_input(), &[idx], cancel)
        .unwrap_err();
    assert_eq!(err.code, "D3001");
}

#[test]
fn stream_cancel_not_set_works_normally() {
    let cancel = false;
    let mut se = Stream::new(Vec::new());
    let idx = se.compile("data.user_type + 1").unwrap();
    let result = se.eval_one_with_cancel(&test_input(), idx, cancel).unwrap();
    assert_eq!(result, see(number(3.0)));
}

/// What a hook was told: the slot, and whether there was an error.
struct Told(std::rc::Rc<RefCell<Vec<(usize, bool)>>>);

impl MetricsHook for Told {
    fn on_eval(&self, expr_index: usize, _fast_path: bool, _duration: std::time::Duration, err: Option<&JsonataError>) {
        self.0.borrow_mut().push((expr_index, err.is_some()));
    }
}

#[test]
fn a_hook_is_told_of_each_evaluation() {
    let told = std::rc::Rc::new(RefCell::new(Vec::new()));
    let mut se = StreamEvaluator::new(Vec::new()).with_metrics(Box::new(Told(told.clone())));
    se.compile("1 + 1", &read).unwrap();
    se.compile("2", &read).unwrap();
    se.compile("1 + 'a'", &read).unwrap();
    se.remove(1).unwrap();
    let eval = |e: &Expression, v: &Value, _env: Option<&Environment>| (evaluate(e, v), false);
    assert!(se.eval_many(&Value::Undefined, &[0, 1, 7, 2, 0], &eval).is_err());
    assert_eq!(*told.borrow(), vec![(0, false), (2, true)]);
    assert!(se.summary().contains("metrics: true"));
}
