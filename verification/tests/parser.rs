//! Parsing and preparing expressions.
use jsntrs::error::JsonataError;
use jsntrs::number::Number;
use jsntrs::parser::ast::{push_children, AstArena, BinaryOp, Expr, NodeId, UnaryOp};
use jsntrs::parser::process::process_ast;
use jsntrs::parser::Parser;

fn float(n: Number) -> f64 {
    f64::from_bits(n.bits)
}

fn read(_inner: &str) -> Result<usize, JsonataError> {
    Ok(0)
}

fn parse(src: &str) -> (AstArena, NodeId) {
    Parser::parse(src, &read).unwrap()
}

#[test]
fn parse_name() {
    let (arena, root) = parse("foo");
    assert!(matches!(arena.get(root), Expr::Name { value, .. } if value == "foo"));
}

#[test]
fn parse_dotted_path() {
    let (arena, root) = parse("a.b.c");
    assert!(matches!(arena.get(root), Expr::Binary { op, .. } if *op == BinaryOp::Dot));
}

#[test]
fn parse_number() {
    let (arena, root) = parse("42");
    assert!(matches!(arena.get(root), Expr::NumberLit { value, .. } if float(*value) == 42.0));
}

#[test]
fn parse_negative_number() {
    let (arena, root) = parse("-42");
    assert!(matches!(arena.get(root), Expr::NumberLit { value, .. } if float(*value) == -42.0));
}

#[test]
fn parse_string() {
    let (arena, root) = parse(r#""hello""#);
    assert!(matches!(arena.get(root), Expr::StringLit { value, .. } if value == "hello"));
}

#[test]
fn parse_variable() {
    let (arena, root) = parse("$x");
    assert!(matches!(arena.get(root), Expr::Variable { name, .. } if name == "x"));
}

#[test]
fn parse_errors_carry_position_and_token() {
    let err = Parser::parse("1 ⊕ 2", &read).unwrap_err();
    assert!(err.position.is_some());

    let err = Parser::parse("a b", &read).unwrap_err();
    assert_eq!(err.position, Some(2));
    assert_eq!(err.token, "b");
}

#[test]
fn focus_and_index_bindings_keep_infix_context() {
    for src in ["Nums@$n / 2", "Nums#$i / 2"] {
        assert!(
            Parser::parse(src, &read).is_ok(),
            "expected {src:?} to parse without S0302"
        );
    }
    let err = Parser::parse("Nums@$n /regex/", &read).unwrap_err();
    assert_eq!(err.code, "S0207");
}

#[test]
fn parse_binary_plus() {
    let (arena, root) = parse("1 + 2");
    match arena.get(root) {
        Expr::Binary { op, lhs, rhs, .. } => {
            assert_eq!(*op, BinaryOp::Add);
            assert!(matches!(arena.get(*lhs), Expr::NumberLit { value, .. } if float(*value) == 1.0));
            assert!(matches!(arena.get(*rhs), Expr::NumberLit { value, .. } if float(*value) == 2.0));
        }
        other => panic!("expected Binary, got {:?}", other),
    }
}

#[test]
fn parse_precedence() {
    let (arena, root) = parse("1 + 2 * 3");
    match arena.get(root) {
        Expr::Binary { op, rhs, .. } => {
            assert_eq!(*op, BinaryOp::Add);
            assert!(matches!(arena.get(*rhs), Expr::Binary { op, .. } if *op == BinaryOp::Mul));
        }
        other => panic!("expected Binary, got {:?}", other),
    }
}

#[test]
fn parse_function_call() {
    let (arena, root) = parse("$sum(a, b)");
    match arena.get(root) {
        Expr::Function { arguments, .. } => {
            assert_eq!(arguments.len(), 2);
        }
        other => panic!("expected Function, got {:?}", other),
    }
}

#[test]
fn parse_lambda() {
    let (arena, root) = parse("function($x){ $x + 1 }");
    assert!(matches!(arena.get(root), Expr::Lambda { params, .. } if params.len() == 1));
}

#[test]
fn parse_array_constructor() {
    let (arena, root) = parse("[1, 2, 3]");
    match arena.get(root) {
        Expr::Unary {
            op, expressions, ..
        } => {
            assert_eq!(*op, UnaryOp::ArrayCons);
            assert_eq!(expressions.len(), 3);
        }
        other => panic!("expected Unary array, got {:?}", other),
    }
}

#[test]
fn parse_object_constructor() {
    let (arena, root) = parse(r#"{"a": 1, "b": 2}"#);
    match arena.get(root) {
        Expr::Unary { op, lhs, .. } => {
            assert_eq!(*op, UnaryOp::ObjCons);
            assert_eq!(lhs.len(), 4);
        }
        other => panic!("expected Unary object, got {:?}", other),
    }
}

#[test]
fn parse_conditional() {
    let (arena, root) = parse("x ? 1 : 2");
    assert!(matches!(
        arena.get(root),
        Expr::Condition { else_: Some(_), .. }
    ));
}

#[test]
fn parse_conditional_no_else() {
    let (arena, root) = parse("x ? 1");
    assert!(matches!(
        arena.get(root),
        Expr::Condition { else_: None, .. }
    ));
}

#[test]
fn parse_binding() {
    let (arena, root) = parse("$x := 42");
    assert!(matches!(arena.get(root), Expr::Bind { .. }));
}

#[test]
fn parse_wildcard() {
    let (arena, root) = parse("*");
    assert!(matches!(arena.get(root), Expr::Wildcard { .. }));
}

#[test]
fn parse_descendant() {
    let (arena, root) = parse("**");
    assert!(matches!(arena.get(root), Expr::Descendant { .. }));
}

#[test]
fn parse_parent() {
    let (arena, root) = parse("%");
    assert!(matches!(arena.get(root), Expr::Parent { .. }));
}

#[test]
fn parse_block() {
    let (arena, root) = parse("(a; b; c)");
    match arena.get(root) {
        Expr::Block { expressions, .. } => {
            assert_eq!(expressions.len(), 3);
        }
        other => panic!("expected Block, got {:?}", other),
    }
}

#[test]
fn parse_subscript() {
    let (arena, root) = parse("a[0]");
    assert!(matches!(arena.get(root), Expr::Binary { op, .. } if *op == BinaryOp::Subscript));
}

#[test]
fn parse_keep_array() {
    let (arena, root) = parse("a[]");
    assert!(matches!(
        arena.get(root),
        Expr::Name {
            keep_array: true,
            ..
        }
    ));
}

#[test]
fn parse_sort() {
    let (arena, root) = parse("data^(>price)");
    match arena.get(root) {
        Expr::Sort { terms, .. } => {
            assert_eq!(terms.len(), 1);
            assert!(terms[0].descending);
        }
        other => panic!("expected Sort, got {:?}", other),
    }
}

#[test]
fn parse_transform() {
    let (arena, root) = parse("|a|b|");
    assert!(matches!(
        arena.get(root),
        Expr::Transform { delete: None, .. }
    ));
}

#[test]
fn parse_transform_with_delete() {
    let (arena, root) = parse("|a|b,c|");
    assert!(matches!(
        arena.get(root),
        Expr::Transform {
            delete: Some(_),
            ..
        }
    ));
}

#[test]
fn parse_partial_application() {
    let (arena, root) = parse("$f(?, 2)");
    assert!(matches!(arena.get(root), Expr::Partial { .. }));
}

#[test]
fn parse_chain() {
    let (arena, root) = parse("a ~> b");
    assert!(matches!(arena.get(root), Expr::Binary { op, .. } if *op == BinaryOp::Chain));
}

#[test]
fn parse_range() {
    let (arena, root) = parse("[1..5]");
    match arena.get(root) {
        Expr::Unary { expressions, .. } => {
            assert_eq!(expressions.len(), 1);
            assert!(
                matches!(arena.get(expressions[0]), Expr::Binary { op, .. } if *op == BinaryOp::Range)
            );
        }
        other => panic!("expected array with range, got {:?}", other),
    }
}

#[test]
fn parse_empty_expression() {
    let (arena, root) = Parser::parse("", &read).unwrap();
    assert!(root.is_empty());
    assert!(arena.is_empty());
}

#[test]
fn error_unexpected_eof() {
    let result = Parser::parse("1 +", &read);
    assert!(result.is_err());
}

#[test]
fn error_binding_lhs_not_variable() {
    let result = Parser::parse("a := 1", &read);
    assert!(result.is_err());
    assert_eq!(result.unwrap_err().code, "S0212");
}

#[test]
fn parse_complex_jsonata() {
    let (arena, root) = parse("$sum(Account.Order.Product.Price)");
    assert!(matches!(arena.get(root), Expr::Function { .. }));
}

#[test]
fn parse_lambda_with_signature() {
    let (arena, root) = parse("function($x)<s:n>{ $x }");
    match arena.get(root) {
        Expr::Lambda { signature, .. } => {
            assert!(signature.is_some());
            assert!(signature.as_ref().unwrap().raw.starts_with('<'));
        }
        other => panic!("expected Lambda, got {:?}", other),
    }
}

#[test]
fn try_get_rejects_empty_and_foreign_ids() {
    let mut arena = AstArena::new();
    let id = arena
        .add_node(Expr::StringLit {
            value: "x".into(),
            pos: 0,
        })
        .unwrap();
    assert!(arena.try_get(id).is_some());
    assert!(arena.try_get(NodeId::empty()).is_none());
    let mut bigger = AstArena::new();
    let _ = bigger.add_node(Expr::StringLit {
        value: "a".into(),
        pos: 0,
    });
    let foreign = bigger
        .add_node(Expr::StringLit {
            value: "b".into(),
            pos: 0,
        })
        .unwrap();
    assert!(arena.try_get(foreign).is_none());
}

fn parse_and_process(src: &str) -> (AstArena, NodeId) {
    let (mut arena, root) = Parser::parse(src, &read).expect("parse failed");
    let root = process_ast(&mut arena, root).expect("process failed");
    (arena, root)
}

#[test]
fn deep_left_assoc_chain_processes_without_overflow() {
    let mut src = String::with_capacity(2 + 2 * 25_000);
    src.push('1');
    for _ in 0..25_000 {
        src.push_str("+1");
    }
    let (_arena, root) = parse_and_process(&src);
    assert!(!root.is_empty());
}

#[test]
fn dot_chain_flattened_to_path() {
    let (arena, root) = parse_and_process("a.b.c");
    match arena.get(root) {
        Expr::Path { steps, .. } => {
            assert_eq!(steps.len(), 3);
            for &s in steps {
                assert!(matches!(arena.get(s), Expr::Name { .. }));
            }
        }
        other => panic!("expected Path, got {:?}", other),
    }
}

#[test]
fn single_name_stays_name() {
    let (arena, root) = parse_and_process("foo");
    assert!(matches!(arena.get(root), Expr::Name { value, .. } if value == "foo"));
}

#[test]
fn lone_keep_array_name_becomes_a_single_step_path() {
    let (arena, root) = parse_and_process("a[]");
    match arena.get(root) {
        Expr::Path {
            steps,
            keep_singleton_array: true,
            group: None,
            ..
        } => {
            assert_eq!(steps.len(), 1);
            assert!(matches!(arena.get(steps[0]), Expr::Name { value, .. } if value == "a"));
        }
        other => panic!("expected single-step Path, got {other:?}"),
    }
}

#[test]
fn lone_focus_bound_name_becomes_a_single_step_path() {
    for src in ["books@$b{$b.g: $b.t}", "books#$i{$string($i): t}"] {
        let (arena, root) = parse_and_process(src);
        match arena.get(root) {
            Expr::Path {
                steps,
                keep_singleton_array: false,
                ..
            } => {
                assert_eq!(steps.len(), 1, "{src}");
                match arena.get(steps[0]) {
                    Expr::Name {
                        focus,
                        index,
                        group: Some(_),
                        ..
                    } => assert!(focus.is_some() || index.is_some(), "{src}"),
                    other => panic!("{src}: expected bound Name step, got {other:?}"),
                }
            }
            other => panic!("{src}: expected single-step Path, got {other:?}"),
        }
    }
}

#[test]
fn keep_array_name_with_group_stays_a_name() {
    let (arena, root) = parse_and_process(r#"a[]{"k": $}"#);
    assert!(matches!(arena.get(root), Expr::Name { value, .. } if value == "a"));
}

#[test]
fn subscript_operand_name_is_not_wrapped() {
    let (arena, root) = parse_and_process("a[][b=1].c");
    match arena.get(root) {
        Expr::Path {
            steps,
            keep_singleton_array: true,
            ..
        } => match arena.get(steps[0]) {
            Expr::Binary { lhs, .. } => {
                assert!(matches!(arena.get(*lhs), Expr::Name { value, .. } if value == "a"));
            }
            other => panic!("expected subscript step, got {other:?}"),
        },
        other => panic!("expected Path with keep_singleton_array, got {other:?}"),
    }
}

#[test]
fn lone_keep_array_wildcard_and_sort_become_single_step_paths() {
    for (src, want_wildcard) in [("*[]", true), ("a^(b)[]", false)] {
        let (arena, root) = parse_and_process(src);
        match arena.get(root) {
            Expr::Path {
                steps,
                keep_singleton_array: true,
                group: None,
                ..
            } => {
                assert_eq!(steps.len(), 1, "{src}");
                if want_wildcard {
                    assert!(
                        matches!(
                            arena.get(steps[0]),
                            Expr::Wildcard {
                                keep_array: true,
                                ..
                            }
                        ),
                        "{src}"
                    );
                } else {
                    assert!(
                        matches!(
                            arena.get(steps[0]),
                            Expr::Sort {
                                keep_array: true,
                                ..
                            }
                        ),
                        "{src}"
                    );
                }
            }
            other => panic!("{src}: expected single-step Path, got {other:?}"),
        }
    }
}

#[test]
fn lone_keep_array_descendant_stays_a_descendant() {
    let (arena, root) = parse_and_process("**[]");
    assert!(matches!(
        arena.get(root),
        Expr::Descendant {
            keep_array: true,
            ..
        }
    ));
}

#[test]
fn keep_array_wildcard_and_descendant_steps_hoist_to_the_path() {
    for src in ["x.*[]", "x.**[]"] {
        let (arena, root) = parse_and_process(src);
        match arena.get(root) {
            Expr::Path {
                steps,
                keep_singleton_array: true,
                ..
            } => assert_eq!(steps.len(), 2, "{src}"),
            other => panic!("{src}: expected 2-step Path with keep-singleton, got {other:?}"),
        }
    }
}

#[test]
fn sort_operand_wildcard_is_not_wrapped_but_a_name_is() {
    let (arena, root) = parse_and_process("*[]^(a)");
    match arena.get(root) {
        Expr::Sort { expr, .. } => assert!(matches!(
            arena.get(*expr),
            Expr::Wildcard {
                keep_array: true,
                ..
            }
        )),
        other => panic!("expected Sort over a raw Wildcard, got {other:?}"),
    }
    let (arena, root) = parse_and_process("a[]^(b)");
    match arena.get(root) {
        Expr::Sort { expr, .. } => assert!(matches!(
            arena.get(*expr),
            Expr::Path {
                keep_singleton_array: true,
                ..
            }
        )),
        other => panic!("expected Sort over a keep-singleton Path, got {other:?}"),
    }
}

#[test]
fn keep_array_on_a_block_step_hoists_to_the_path() {
    let (arena, root) = parse_and_process("foo.($sum(bar))[]");
    match arena.get(root) {
        Expr::Path {
            steps,
            keep_singleton_array: true,
            ..
        } => {
            assert_eq!(steps.len(), 2);
            assert!(matches!(
                arena.get(steps[1]),
                Expr::Block {
                    keep_array: true,
                    ..
                }
            ));
        }
        other => panic!("expected Path with keep_singleton_array, got {other:?}"),
    }
}

#[test]
fn keep_singleton_array_propagated() {
    let (arena, root) = parse_and_process("a[].b");
    match arena.get(root) {
        Expr::Path {
            keep_singleton_array: true,
            ..
        } => {}
        other => panic!("expected Path with keep_singleton_array, got {:?}", other),
    }
}

#[test]
fn string_in_path_becomes_name() {
    let (arena, root) = parse_and_process(r#"a."Product Name""#);
    match arena.get(root) {
        Expr::Path { steps, .. } => {
            assert_eq!(steps.len(), 2);
            match arena.get(steps[1]) {
                Expr::Name { value, .. } => assert_eq!(value, "Product Name"),
                other => panic!("expected Name, got {:?}", other),
            }
        }
        other => panic!("expected Path, got {:?}", other),
    }
}

#[test]
fn tail_call_marked_on_recursive_function() {
    let (arena, root) = parse_and_process("$f := function($n){$n > 0 ? $f($n - 1) : 0}");
    match arena.get(root) {
        Expr::Bind { rhs, .. } => match arena.get(*rhs) {
            Expr::Lambda { body, .. } => {
                match arena.get(*body) {
                    Expr::Condition { then_, .. } => match arena.get(*then_) {
                        Expr::Function { thunk, .. } => {
                            assert!(thunk, "function in tail position should have thunk=true");
                        }
                        other => panic!("expected Function, got {:?}", other),
                    },
                    other => panic!("expected Condition, got {:?}", other),
                }
            }
            other => panic!("expected Lambda, got {:?}", other),
        },
        other => panic!("expected Bind, got {:?}", other),
    }
}

#[test]
fn nested_path_spliced() {
    let (arena, root) = parse_and_process("(a.b).c");
    match arena.get(root) {
        Expr::Path { steps, .. } => {
            assert!(
                steps.len() >= 2,
                "expected at least 2 steps, got {}",
                steps.len()
            );
        }
        other => panic!("expected Path, got {:?}", other),
    }
}

#[test]
fn binary_non_dot_children_processed() {
    let (arena, root) = parse_and_process("a.b + c.d");
    match arena.get(root) {
        Expr::Binary { op, lhs, rhs, .. } => {
            assert_eq!(*op, BinaryOp::Add);
            assert!(matches!(arena.get(*lhs), Expr::Path { .. }));
            assert!(matches!(arena.get(*rhs), Expr::Path { .. }));
        }
        other => panic!("expected Binary +, got {:?}", other),
    }
}

#[test]
fn block_children_processed() {
    let (arena, root) = parse_and_process("(a.b; c.d)");
    match arena.get(root) {
        Expr::Block { expressions, .. } => {
            assert_eq!(expressions.len(), 2);
            assert!(matches!(arena.get(expressions[0]), Expr::Path { .. }));
            assert!(matches!(arena.get(expressions[1]), Expr::Path { .. }));
        }
        other => panic!("expected Block, got {:?}", other),
    }
}

#[test]
fn tail_call_in_block_last_expr() {
    let (arena, root) = parse_and_process("$f := function($n){($x := 1; $f($n - 1))}");
    match arena.get(root) {
        Expr::Bind { rhs, .. } => match arena.get(*rhs) {
            Expr::Lambda { body, .. } => match arena.get(*body) {
                Expr::Block { expressions, .. } => {
                    let last = expressions.last().unwrap();
                    match arena.get(*last) {
                        Expr::Function { thunk, .. } => {
                            assert!(thunk, "last expr in block should be tail-call");
                        }
                        other => panic!("expected Function, got {:?}", other),
                    }
                }
                other => panic!("expected Block, got {:?}", other),
            },
            other => panic!("expected Lambda, got {:?}", other),
        },
        other => panic!("expected Bind, got {:?}", other),
    }
}

fn has_thunked_call(arena: &AstArena, root: NodeId) -> bool {
    let mut stack = vec![root];
    while let Some(id) = stack.pop() {
        let Some(expr) = arena.try_get(id) else {
            continue;
        };
        if matches!(expr, Expr::Function { thunk: true, .. }) {
            return true;
        }
        push_children(expr, &mut stack);
    }
    false
}

#[test]
fn a_bind_right_hand_side_is_not_a_tail_position() {
    for src in [
        "$g := function($n){$f($n)}",
        "$g := function($n){($x := 1; $f($n))}",
        "$g := function($n){$n > 0 ? $f($n) : 0}",
    ] {
        let (arena, root) = parse_and_process(src);
        assert!(
            has_thunked_call(&arena, root),
            "expected a tail call: {src}"
        );
    }
    for src in [
        "$g := function($n){$y := $f($n)}",
        "$g := function($n){($x := 1; $y := $f($n))}",
        "$g := function($n){$n > 0 ? ($y := $f($n)) : 0}",
    ] {
        let (arena, root) = parse_and_process(src);
        assert!(
            !has_thunked_call(&arena, root),
            "a bind right-hand side must not be thunked: {src}"
        );
    }
}

#[test]
fn unary_children_processed() {
    let (arena, root) = parse_and_process("[a.b, c.d]");
    match arena.get(root) {
        Expr::Unary { expressions, .. } => {
            assert_eq!(expressions.len(), 2);
            assert!(matches!(arena.get(expressions[0]), Expr::Path { .. }));
            assert!(matches!(arena.get(expressions[1]), Expr::Path { .. }));
        }
        other => panic!("expected Unary (array), got {:?}", other),
    }
}

#[test]
fn condition_children_processed() {
    let (arena, root) = parse_and_process("x.y ? a.b : c.d");
    match arena.get(root) {
        Expr::Condition {
            condition,
            then_,
            else_,
            ..
        } => {
            assert!(matches!(arena.get(*condition), Expr::Path { .. }));
            assert!(matches!(arena.get(*then_), Expr::Path { .. }));
            assert!(matches!(arena.get(else_.unwrap()), Expr::Path { .. }));
        }
        other => panic!("expected Condition, got {:?}", other),
    }
}
