//! Truth and types.
use jsntrs::error::JsonataResult;
use jsntrs::number::Number;
use jsntrs::stdlib::boolean::{fn_boolean, fn_exists, fn_not};
use jsntrs::stdlib::types::{fn_assert, fn_type_of};
use jsntrs::value::{ObjectMap, Value};

fn number(x: f64) -> Value {
    Value::Number(Number { bits: x.to_bits() })
}

const U: &Value = &Value::Undefined;

fn b(r: JsonataResult) -> bool {
    match r {
        Ok(Value::Bool(v)) => v,
        other => panic!("expected bool, got {other:?}"),
    }
}

#[test]
fn boolean_coercion_truth_table() {
    assert!(b(fn_boolean(&[Value::String("0".into())], U)));
    assert!(b(fn_boolean(&[Value::String("false".into())], U)));
    assert!(!b(fn_boolean(&[Value::String("".into())], U)));
    assert!(!b(fn_boolean(&[number(0.0)], U)));
    assert!(b(fn_boolean(&[number(-0.5)], U)));
    assert!(!b(fn_boolean(&[Value::Null], U)));
    assert!(!b(fn_boolean(
        &[Value::Array(Vec::new())],
        U
    )));
    assert!(!b(fn_boolean(
        &[Value::Array(vec![number(0.0)])],
        U
    )));
    assert!(b(fn_boolean(
        &[Value::Array(vec![
            number(0.0),
            number(1.0)
        ])],
        U
    )));
    assert!(!b(fn_boolean(
        &[Value::Object(ObjectMap::new())],
        U
    )));
    assert!(matches!(
        fn_boolean(&[Value::Undefined], U),
        Ok(Value::Undefined)
    ));
}

#[test]
fn boolean_rejects_infinity_and_reads_nan_as_false() {
    let err = |r: JsonataResult| match r {
        Err(e) => e.code,
        other => panic!("expected an error, got {other:?}"),
    };
    assert_eq!(err(fn_boolean(&[number(f64::INFINITY)], U)), "D1001");
    assert_eq!(
        err(fn_boolean(&[number(f64::NEG_INFINITY)], U)),
        "D1001"
    );
    assert_eq!(err(fn_not(&[number(f64::INFINITY)], U)), "D1001");
    assert!(!b(fn_boolean(&[number(f64::NAN)], U)));
    assert!(b(fn_not(&[number(f64::NAN)], U)));
    assert_eq!(
        err(fn_boolean(
            &[Value::Array(vec![
                number(1.0),
                number(f64::INFINITY),
            ])],
            U
        )),
        "D1001"
    );
    let mut obj = ObjectMap::new();
    obj.insert("a".into(), number(f64::INFINITY));
    assert!(b(fn_boolean(&[Value::Object(obj)], U)));
}

#[test]
fn not_negates_and_propagates_undefined() {
    assert!(!b(fn_not(&[Value::Bool(true)], U)));
    assert!(b(fn_not(&[Value::String("".into())], U)));
    assert!(matches!(
        fn_not(&[Value::Undefined], U),
        Ok(Value::Undefined)
    ));
    assert!(fn_not(&[], U).is_err());
}

#[test]
fn exists_distinguishes_undefined_from_null() {
    assert!(!b(fn_exists(&[Value::Undefined], U)));
    assert!(b(fn_exists(&[Value::Null], U)));
}

fn kind(v: Value) -> String {
    match fn_type_of(&[v], U) {
        Ok(Value::String(s)) => s.to_string(),
        other => panic!("expected string, got {other:?}"),
    }
}

#[test]
fn type_of_names_every_value_kind() {
    assert_eq!(kind(Value::Null), "null");
    assert_eq!(kind(Value::Bool(true)), "boolean");
    assert_eq!(kind(number(1.0)), "number");
    assert_eq!(kind(Value::String("x".into())), "string");
    assert_eq!(
        kind(Value::Array(Vec::new())),
        "array"
    );
    assert_eq!(
        kind(Value::Object(ObjectMap::new())),
        "object"
    );
    assert!(matches!(
        fn_type_of(&[Value::Undefined], U),
        Ok(Value::Undefined)
    ));
}

#[test]
fn type_of_rejects_infinity_and_calls_nan_an_object() {
    let err = match fn_type_of(&[number(f64::INFINITY)], U) {
        Err(e) => e,
        other => panic!("expected an error, got {other:?}"),
    };
    assert_eq!(err.code, "D1001");
    assert_eq!(
        match fn_type_of(&[number(f64::NEG_INFINITY)], U) {
            Err(e) => e.code,
            other => panic!("expected an error, got {other:?}"),
        },
        "D1001"
    );
    assert_eq!(kind(number(f64::NAN)), "object");
    assert_eq!(
        kind(Value::Array(vec![number(f64::INFINITY)])),
        "array"
    );
}

#[test]
fn assert_fails_with_custom_message() {
    assert!(matches!(
        fn_assert(&[Value::Bool(true)], U),
        Ok(Value::Undefined)
    ));
    let err = match fn_assert(&[Value::Bool(false), Value::String("boom".into())], U) {
        Err(e) => e,
        other => panic!("expected error, got {other:?}"),
    };
    assert_eq!(err.code, "D3141");
    assert_eq!(err.message, "boom");
    let err = match fn_assert(&[number(1.0)], U) {
        Err(e) => e,
        other => panic!("expected error, got {other:?}"),
    };
    assert_eq!(err.code, "T0410");
}
