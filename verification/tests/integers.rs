//! Integers by pictures.
use jsntrs::number::Number;
use jsntrs::stdlib::format_integer::fn_format_integer;
use jsntrs::stdlib::parse_integer::fn_parse_integer;
use jsntrs::value::Value;

fn number(x: f64) -> Value {
    Value::Number(Number { bits: x.to_bits() })
}

fn float(n: Number) -> f64 {
    f64::from_bits(n.bits)
}

fn fmt(n: f64, picture: &str) -> String {
    match fn_format_integer(
        &[number(n), Value::String(picture.into())],
        &Value::Undefined,
    ) {
        Ok(Value::String(s)) => s.to_string(),
        other => panic!("expected string, got {other:?}"),
    }
}

#[test]
fn format_integer_pictures() {
    assert_eq!(
        fmt(2789.0, "w"),
        "two thousand, seven hundred and eighty-nine"
    );
    assert_eq!(fmt(1999.0, "I"), "MCMXCIX");
    assert_eq!(fmt(1999.0, "i"), "mcmxcix");
    assert_eq!(fmt(123.0, "0000"), "0123");
}

#[test]
fn ordinal_modifier() {
    assert_eq!(fmt(12.0, "w;o"), "twelfth");
    assert_eq!(fmt(12.0, "1;o"), "12th");
    assert_eq!(fmt(2.0, "1;o"), "2nd");
}

#[test]
fn i64_min_errors_cleanly() {
    let min = i64::MIN as f64;
    for picture in ["0", "i", "a"] {
        let err = match fn_format_integer(
            &[number(min), Value::String((*picture).into())],
            &Value::Undefined,
        ) {
            Err(e) => e,
            other => panic!("expected D3137 for {picture:?}, got {other:?}"),
        };
        assert_eq!(err.code, "D3137");
    }
    let words = fmt(min, "w");
    assert!(words.starts_with("minus "), "got {words:?}");
    assert!(fmt(-9_223_372_036_854_774_784.0, "0").starts_with('-'));
}

#[test]
fn format_integer_non_finite_errors_for_every_picture() {
    let pictures = [
        "w", "W", "Ww", "w;o", "W;o", "Ww;o", "i", "I", "a", "A", "0", "#,##0", "1;o",
    ];
    for picture in pictures {
        for n in [f64::INFINITY, f64::NEG_INFINITY, f64::NAN] {
            let err = match fn_format_integer(
                &[number(n), Value::String(picture.into())],
                &Value::Undefined,
            ) {
                Err(e) => e,
                other => panic!("expected D3001 for {picture:?} / {n}, got {other:?}"),
            };
            assert_eq!(err.code, "D3001", "picture {picture:?}, input {n}");
        }
    }
}

fn parse(s: &str, picture: &str) -> f64 {
    match fn_parse_integer(
        &[Value::String(s.into()), Value::String(picture.into())],
        &Value::Undefined,
    ) {
        Ok(Value::Number(n)) => float(n),
        other => panic!("expected number, got {other:?}"),
    }
}

#[test]
fn parse_integer_inverts_format_integer() {
    assert_eq!(parse("twelve", "w"), 12.0);
    assert_eq!(parse("MCMXCIX", "I"), 1999.0);
    assert_eq!(parse("mcmxcix", "i"), 1999.0);
    assert_eq!(parse("12,345,678", "#,##0"), 12_345_678.0);
    assert_eq!(parse("0123", "0000"), 123.0);
}

#[test]
fn words_range_guard_boundary() {
    assert_eq!(parse("nine hundred trillion", "w"), 9e14);
    assert_eq!(parse("trillion trillion", "w"), 1e24);
}

#[test]
fn alphabetic_overflow_is_clean_error() {
    assert_eq!(parse("zz", "a"), 702.0);
    let err = fn_parse_integer(
        &[
            Value::String("zzzzzzzzzzzzzz".into()),
            Value::String("a".into()),
        ],
        &Value::Undefined,
    )
    .unwrap_err();
    assert_eq!(err.code, "D3137");
}
