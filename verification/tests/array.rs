//! Array functions.
use jsntrs::error::JsonataResult;
use jsntrs::number::Number;
use jsntrs::stdlib::array::{fn_append, fn_count, fn_distinct, fn_flatten, fn_reverse, fn_zip};
use jsntrs::value::{ObjectMap, Value};

fn number(x: f64) -> Value {
    Value::Number(Number { bits: x.to_bits() })
}

const U: &Value = &Value::Undefined;

fn n(x: f64) -> Value {
    number(x)
}
fn arr(items: Vec<Value>) -> Value {
    Value::Array(items)
}
fn ok(r: JsonataResult) -> Value {
    match r {
        Ok(v) => v,
        Err(e) => panic!("unexpected error: {e:?}"),
    }
}

#[test]
fn append_caps_result_size() {
    let a = arr(vec![n(0.0); 5_000_000]);
    let b = arr(vec![n(0.0); 5_000_001]);
    let err = fn_append(&[a.clone(), b], U).unwrap_err();
    assert_eq!(err.code, "D3010");
    let b2 = arr(vec![n(0.0); 5_000_000]);
    assert!(matches!(ok(fn_append(&[a, b2], U)), Value::Array(r) if r.len() == 10_000_000));
}

#[test]
fn append_handles_undefined_and_scalars() {
    assert!(ok(fn_append(&[Value::Undefined, n(2.0)], U)).deep_equal(&n(2.0)));
    assert!(ok(fn_append(&[n(1.0), Value::Undefined], U)).deep_equal(&n(1.0)));
    assert!(ok(fn_append(&[n(1.0), n(2.0)], U)).deep_equal(&arr(vec![n(1.0), n(2.0)])));
    assert!(
        ok(fn_append(
            &[arr(vec![n(1.0)]), arr(vec![n(2.0), n(3.0)])],
            U
        ))
        .deep_equal(&arr(vec![n(1.0), n(2.0), n(3.0)]))
    );
}

#[test]
fn count_of_undefined_is_zero() {
    assert!(ok(fn_count(&[Value::Undefined], U)).deep_equal(&n(0.0)));
    assert!(ok(fn_count(&[n(7.0)], U)).deep_equal(&n(1.0)));
    assert!(ok(fn_count(&[arr(vec![n(1.0), n(2.0)])], U)).deep_equal(&n(2.0)));
}

#[test]
fn reverse_reverses() {
    assert!(
        ok(fn_reverse(&[arr(vec![n(1.0), n(2.0), n(3.0)])], U)).deep_equal(&arr(vec![
            n(3.0),
            n(2.0),
            n(1.0)
        ]))
    );
}

#[test]
fn distinct_dedups_by_deep_equality() {
    assert!(
        ok(fn_distinct(
            &[arr(vec![n(1.0), n(2.0), n(1.0), n(3.0), n(2.0)])],
            U
        ))
        .deep_equal(&arr(vec![n(1.0), n(2.0), n(3.0)]))
    );
    let obj = |k: f64| {
        let mut m = ObjectMap::new();
        m.insert("a".into(), n(k));
        Value::Object(m)
    };
    assert!(
        ok(fn_distinct(&[arr(vec![obj(1.0), obj(1.0)])], U)).deep_equal(&arr(vec![obj(1.0)]))
    );
}

#[test]
fn flatten_honors_depth() {
    let nested = arr(vec![arr(vec![n(1.0), arr(vec![n(2.0)])]), n(3.0)]);
    assert!(
        ok(fn_flatten(std::slice::from_ref(&nested), U)).deep_equal(&arr(vec![
            n(1.0),
            n(2.0),
            n(3.0)
        ]))
    );
    assert!(ok(fn_flatten(&[nested, n(1.0)], U)).deep_equal(&arr(vec![
        n(1.0),
        arr(vec![n(2.0)]),
        n(3.0)
    ])));
}

#[test]
fn zip_truncates_to_shortest() {
    assert!(
        ok(fn_zip(
            &[arr(vec![n(1.0), n(2.0)]), arr(vec![n(3.0), n(4.0), n(5.0)])],
            U
        ))
        .deep_equal(&arr(vec![
            arr(vec![n(1.0), n(3.0)]),
            arr(vec![n(2.0), n(4.0)])
        ]))
    );
    let z = ok(fn_zip(&[arr(vec![n(1.0)]), Value::Undefined], U));
    assert!(matches!(&z, Value::Array(a) if a.is_empty()));
}
