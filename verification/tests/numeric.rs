//! Numeric functions.
use jsntrs::error::JsonataResult;
use jsntrs::number::Number;
use jsntrs::stdlib::numeric::{
    bankers_round, fn_average, fn_format_base, fn_max, fn_min, fn_power, fn_round, fn_sqrt, fn_sum,
};
use jsntrs::value::Value;

fn number(x: f64) -> Value {
    Value::Number(Number { bits: x.to_bits() })
}

fn float(n: Number) -> f64 {
    f64::from_bits(n.bits)
}

const U: &Value = &Value::Undefined;

fn n(x: f64) -> Value {
    number(x)
}
fn num(r: JsonataResult) -> f64 {
    match r {
        Ok(Value::Number(x)) => float(x),
        other => panic!("expected number, got {other:?}"),
    }
}
fn text(r: JsonataResult) -> String {
    match r {
        Ok(Value::String(s)) => s.to_string(),
        other => panic!("expected string, got {other:?}"),
    }
}
fn code(r: JsonataResult) -> &'static str {
    match r {
        Err(e) => e.code,
        other => panic!("expected error, got {other:?}"),
    }
}

fn bankers(x: f64, scale: i32) -> f64 {
    float(bankers_round(Number { bits: x.to_bits() }, scale))
}

fn power(args: &[Value], focus: &Value) -> JsonataResult {
    fn_power(args, focus, |a, b| Number { bits: float(a).powf(float(b)).to_bits() })
}

#[test]
fn round_is_half_to_even() {
    assert_eq!(bankers(0.5, 0), 0.0);
    assert_eq!(bankers(1.5, 0), 2.0);
    assert_eq!(bankers(2.5, 0), 2.0);
    assert_eq!(bankers(-1.5, 0), -2.0);
    assert_eq!(bankers(1.25, 1), 1.2);
    assert_eq!(bankers(1.75, 1), 1.8);
    assert_eq!(bankers(125.0, -1), 120.0);
}

#[test]
fn round_builtin_applies_scale_argument() {
    assert_eq!(num(fn_round(&[n(1.25), n(1.0)], U)), 1.2);
    assert_eq!(num(fn_round(&[n(2.5)], U)), 2.0);
}

#[test]
fn round_string_based_corner_cases() {
    assert_eq!(bankers(2.500_000_000_01, 0), 3.0);
    assert_eq!(bankers(4.525, 2), 4.52);
    assert_eq!(bankers(0.5655, 3), 0.566);
    assert_eq!(bankers(1.0, 400), 1.0);
    assert_eq!(bankers(1e300, 10), 1e300);
    assert_eq!(bankers(1e-300, 2), 0.0);
    assert_eq!(bankers(11.999_999_999_999_998, 2), 12.0);
    assert_eq!(bankers(123.456, -2), 100.0);
    assert!(bankers(5.0, -400).is_nan());
}

#[test]
fn power_rejects_non_finite_results() {
    assert_eq!(num(power(&[n(2.0), n(10.0)], U)), 1024.0);
    assert_eq!(code(power(&[n(0.0), n(-1.0)], U)), "D3061");
    assert_eq!(code(power(&[n(-2.0), n(0.5)], U)), "D3061");
}

#[test]
fn sqrt_of_negative_is_an_error() {
    assert_eq!(num(fn_sqrt(&[n(144.0)], U)), 12.0);
    assert_eq!(code(fn_sqrt(&[n(-1.0)], U)), "D3060");
}

#[test]
fn format_base_covers_radix_range() {
    assert_eq!(text(fn_format_base(&[n(100.0), n(2.0)], U)), "1100100");
    assert_eq!(text(fn_format_base(&[n(255.0), n(16.0)], U)), "ff");
    assert_eq!(text(fn_format_base(&[n(-100.0), n(2.0)], U)), "-1100100");
    assert_eq!(text(fn_format_base(&[n(12.0)], U)), "12");
    assert_eq!(code(fn_format_base(&[n(12.0), n(1.0)], U)), "D3100");
    assert_eq!(code(fn_format_base(&[n(12.0), n(37.0)], U)), "D3100");
}

#[test]
fn aggregates_handle_boundaries() {
    let nums = Value::Array(vec![n(1.0), n(2.0), n(3.0), n(4.0)]);
    let nums = std::slice::from_ref(&nums);
    assert_eq!(num(fn_sum(nums, U)), 10.0);
    assert_eq!(num(fn_average(nums, U)), 2.5);
    assert_eq!(num(fn_max(nums, U)), 4.0);
    assert_eq!(num(fn_min(nums, U)), 1.0);
    let empty = Value::Array(Vec::new());
    let empty = std::slice::from_ref(&empty);
    assert_eq!(num(fn_sum(empty, U)), 0.0);
    assert!(matches!(fn_max(empty, U), Ok(Value::Undefined)));
    assert!(matches!(fn_min(empty, U), Ok(Value::Undefined)));
    assert!(matches!(fn_average(empty, U), Ok(Value::Undefined)));
    let mixed = Value::Array(vec![n(1.0), Value::String("x".into())]);
    assert_eq!(code(fn_sum(&[mixed], U)), "T0412");
}
