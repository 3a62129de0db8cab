//! Object functions.
use jsntrs::error::JsonataResult;
use jsntrs::number::Number;
use jsntrs::stdlib::object::{fn_error, fn_keys, fn_lookup, fn_merge, fn_spread, fn_values};
use jsntrs::value::{ObjectMap, Value};

fn number(x: f64) -> Value {
    Value::Number(Number { bits: x.to_bits() })
}

const U: &Value = &Value::Undefined;

fn obj(pairs: &[(&str, f64)]) -> Value {
    let mut m = ObjectMap::new();
    for (k, v) in pairs {
        m.insert((*k).into(), number(*v));
    }
    Value::Object(m)
}
fn ok(r: JsonataResult) -> Value {
    match r {
        Ok(v) => v,
        Err(e) => panic!("unexpected error: {e:?}"),
    }
}
fn strings(v: &Value) -> Vec<String> {
    match v {
        Value::Array(items) => items
            .iter()
            .map(|x| match x {
                Value::String(s) => s.to_string(),
                other => panic!("expected string element, got {other:?}"),
            })
            .collect(),
        Value::String(s) => vec![s.to_string()],
        other => panic!("expected array or string, got {other:?}"),
    }
}

#[test]
fn keys_preserve_insertion_order_and_union_arrays() {
    let keys = ok(fn_keys(&[obj(&[("z", 1.0), ("a", 2.0), ("m", 3.0)])], U));
    assert_eq!(strings(&keys), ["z", "a", "m"]);
    assert_eq!(strings(&ok(fn_keys(&[obj(&[("only", 1.0)])], U))), ["only"]);
    assert!(matches!(fn_keys(&[obj(&[])], U), Ok(Value::Undefined)));
    let arr = Value::Array(vec![
        obj(&[("b", 1.0), ("a", 2.0)]),
        obj(&[("a", 9.0), ("c", 3.0)]),
    ]);
    assert_eq!(strings(&ok(fn_keys(&[arr], U))), ["b", "a", "c"]);
}

#[test]
fn values_returns_object_values() {
    let vals = ok(fn_values(&[obj(&[("a", 1.0), ("b", 2.0)])], U));
    assert!(vals.deep_equal(&Value::Array(vec![
        number(1.0),
        number(2.0)
    ])));
}

#[test]
fn merge_is_last_writer_wins_in_first_seen_order() {
    let merged = ok(fn_merge(
        &[Value::Array(vec![
            obj(&[("a", 1.0), ("b", 2.0)]),
            obj(&[("b", 9.0), ("c", 3.0)]),
        ])],
        U,
    ));
    assert!(merged.deep_equal(&obj(&[("a", 1.0), ("b", 9.0), ("c", 3.0)])));
    assert_eq!(strings(&ok(fn_keys(&[merged], U))), ["a", "b", "c"]);
}

#[test]
fn lookup_maps_across_arrays() {
    let key = Value::String("a".into());
    assert!(
        ok(fn_lookup(&[obj(&[("a", 1.0)]), key.clone()], U)).deep_equal(&number(1.0))
    );
    assert!(matches!(
        fn_lookup(&[obj(&[("b", 1.0)]), key.clone()], U),
        Ok(Value::Undefined)
    ));
    let arr = Value::Array(vec![
        obj(&[("a", 1.0)]),
        obj(&[("x", 0.0)]),
        obj(&[("a", 2.0)]),
    ]);
    assert!(
        ok(fn_lookup(&[arr, key], U)).deep_equal(&Value::Array(vec![
            number(1.0),
            number(2.0)
        ]))
    );
}

#[test]
fn spread_splits_into_single_pair_objects() {
    let spread = match fn_spread(&[obj(&[("a", 1.0), ("b", 2.0)])], U) {
        Ok(Value::Sequence(seq)) => seq.into_value(),
        other => panic!("expected sequence, got {other:?}"),
    };
    assert!(spread.deep_equal(&Value::Array(vec![
        obj(&[("a", 1.0)]),
        obj(&[("b", 2.0)])
    ])));
}

#[test]
fn spread_passes_non_objects_through() {
    let arr = Value::Array(vec![
        obj(&[("a", 1.0), ("b", 2.0)]),
        number(3.0),
        Value::String("x".into()),
    ]);
    assert!(
        ok(fn_spread(&[arr], U)).deep_equal(&Value::Array(vec![
            obj(&[("a", 1.0)]),
            obj(&[("b", 2.0)]),
            number(3.0),
            Value::String("x".into()),
        ]))
    );
}

#[test]
fn merge_rejects_non_object_elements() {
    let arr = Value::Array(vec![obj(&[("a", 1.0)]), number(2.0)]);
    let err = match fn_merge(&[arr], U) {
        Err(e) => e,
        other => panic!("expected T0412, got {other:?}"),
    };
    assert_eq!(err.code, "T0412");
}

#[test]
fn values_collects_across_array_elements() {
    let arr = Value::Array(vec![
        obj(&[("a", 1.0)]),
        obj(&[("b", 2.0), ("c", 3.0)]),
        number(5.0),
    ]);
    assert!(
        ok(fn_values(&[arr], U)).deep_equal(&Value::Array(vec![
            number(1.0),
            number(2.0),
            number(3.0),
        ]))
    );
    let no_objects = Value::Array(vec![number(1.0), number(2.0)]);
    assert!(matches!(fn_values(&[no_objects], U), Ok(Value::Undefined)));
    let empty_objects = Value::Array(vec![obj(&[])]);
    assert!(matches!(
        fn_values(&[empty_objects], U),
        Ok(Value::Undefined)
    ));
}

#[test]
fn error_raises_with_message() {
    let err = match fn_error(&[Value::String("boom".into())], U) {
        Err(e) => e,
        other => panic!("expected error, got {other:?}"),
    };
    assert_eq!(err.code, "D3137");
    assert_eq!(err.message, "boom");
}
