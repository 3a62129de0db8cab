//! Numbers by pictures.
use jsntrs::number::Number;
use jsntrs::stdlib::format_number::{fn_format_number, regular_grouping};
use jsntrs::value::{ObjectMap, Value};

fn number(x: f64) -> Value {
    Value::Number(Number { bits: x.to_bits() })
}

fn fmt(n: f64, picture: &str) -> String {
    match fn_format_number(
        &[number(n), Value::String(picture.into())],
        &Value::Undefined,
    ) {
        Ok(Value::String(s)) => s.to_string(),
        other => panic!("expected string, got {other:?}"),
    }
}

#[test]
fn format_number_matches_jsonata_documentation_examples() {
    assert_eq!(fmt(12345.6, "#,###.00"), "12,345.60");
    assert_eq!(fmt(1234.5678, "00.000e0"), "12.346e2");
    assert_eq!(fmt(0.14, "01%"), "14%");
    assert_eq!(fmt(1234.5678, "#,##0.00"), "1,234.57");
}

#[test]
fn negative_sub_picture_is_applied() {
    assert_eq!(fmt(-1.0, "#0.00;(#0.00)"), "(1.00)");
    assert_eq!(fmt(1.0, "#0.00;(#0.00)"), "1.00");
}

#[test]
fn negative_zero_formats_as_zero() {
    assert_eq!(fmt(-0.0, "0.00"), "0.00");
    assert_eq!(fmt(-0.0, "0.0"), "0.0");
    assert_eq!(fmt(-0.0, "9,9,99.99"), "0,0,00.00");
    assert_eq!(fmt(-0.0, "#,##0.00"), "0.00");
    assert_eq!(fmt(-0.0, "0.00%"), "0.00%");
    assert_eq!(fmt(-0.0, "‰0.00"), "‰0.00");
    assert_eq!(fmt(-0.0, "0.00;(0.00)"), "0.00");
    assert_eq!(fmt(-0.0, "0.00;-0.00"), "0.00");
    assert_eq!(fmt(-0.0, "0.0e0"), fmt(0.0, "0.0e0"));
    assert_eq!(fmt(-0.0, "00.000e0"), fmt(0.0, "00.000e0"));
    assert_eq!(fmt(-0.000_000_001, "0.00"), "-0.00");
    assert_eq!(fmt(-0.4, "0"), "-0");
    assert_eq!(fmt(-1.0, "0.00;(0.00)"), "(1.00)");
}

fn fmt_args(args: &[Value]) -> Result<String, &'static str> {
    match fn_format_number(args, &Value::Undefined) {
        Ok(Value::String(s)) => Ok(s.to_string()),
        Ok(other) => panic!("expected string, got {other:?}"),
        Err(e) => Err(e.code),
    }
}

#[test]
fn format_number_non_finite_errors_for_every_picture() {
    let pictures = ["0.00", "#,##0.00", "0.0e0", "#0.0;(#0.0)", "01%", "###"];
    for picture in pictures {
        for n in [f64::INFINITY, f64::NEG_INFINITY, f64::NAN] {
            assert_eq!(
                fmt_args(&[number(n), Value::String(picture.into())]),
                Err("D3001"),
                "picture {picture:?}, input {n}"
            );
        }
    }
}

#[test]
fn argument_type_errors_win_over_the_range_guard() {
    assert_eq!(
        fmt_args(&[number(f64::INFINITY), number(5.0)]),
        Err("T0410")
    );
    assert_eq!(
        fmt_args(&[Value::String("x".into()), Value::String("0.00".into())]),
        Err("T0410")
    );
    let propagated = fn_format_number(
        &[Value::Undefined, Value::String("0.00".into())],
        &Value::Undefined,
    );
    assert!(matches!(propagated, Ok(Value::Undefined)));
}

/// Options written as an object of one key and one text.
fn options_of(text: &str) -> Value {
    let words: Vec<&str> = text.split('"').collect();
    let mut o = ObjectMap::new();
    o.insert(words[1].to_string(), Value::String(words[3].to_string()));
    Value::Object(o)
}

fn fmt_opts(n: f64, picture: &str, options: &str) -> Result<String, &'static str> {
    let opts = options_of(options);
    match fn_format_number(
        &[number(n), Value::String(picture.into()), opts],
        &Value::Undefined,
    ) {
        Ok(Value::String(s)) => Ok(s.to_string()),
        Ok(other) => panic!("expected string, got {other:?}"),
        Err(e) => Err(e.code),
    }
}

#[test]
fn exponent_separator_option_is_honoured() {
    let e_sep = r#"{"exponent-separator": "E"}"#;
    assert_eq!(fmt_opts(1234.5678, "0.0E0", e_sep), Ok("1.2E3".to_string()));
    assert_eq!(
        fmt_opts(1234.5678, "00.000E0", e_sep),
        Ok("12.346E2".to_string())
    );
    assert_eq!(
        fmt_opts(0.000_012_345, "0.00E0", e_sep),
        Ok("1.23E-5".to_string())
    );
    assert_eq!(fmt_opts(1234.5678, "0.0e0", e_sep), Err("D3086"));
    assert_eq!(
        fmt_opts(1234.5678, "0.0e0", r#"{"exponent-separator": "EE"}"#),
        Err("D3086")
    );
    assert_eq!(
        fmt_opts(1234.5678, "0.0e0", r#"{"bogus": "x"}"#),
        Ok("1.2e3".to_string())
    );
}

#[test]
fn scaling_options_are_matched_as_strings() {
    assert_eq!(
        fmt_opts(7.0, "00", r#"{"per-mille": "0a"}"#),
        Ok("07".to_string())
    );
    assert_eq!(
        fmt_opts(7.0, "00", r#"{"percent": "0a"}"#),
        Ok("07".to_string())
    );
    assert_eq!(
        fmt_opts(7.0, "0%", r#"{"percent": "0a"}"#),
        Ok("7%".to_string())
    );
    assert_eq!(
        fmt_opts(7.0, "0‰", r#"{"per-mille": "0a"}"#),
        Ok("7‰".to_string())
    );
    assert_eq!(
        fmt_opts(7.0, "00a", r#"{"percent": "0a"}"#),
        Ok("700a".to_string())
    );
    assert_eq!(
        fmt_opts(7.0, "00a", r#"{"per-mille": "0a"}"#),
        Ok("7000a".to_string())
    );
    assert_eq!(
        fmt_opts(7.0, "0ab", r#"{"percent": "ab"}"#),
        Ok("700ab".to_string())
    );
    assert_eq!(fmt_opts(7.0, "0", r#"{"percent": ""}"#), Err("D3082"));
    assert_eq!(fmt_opts(7.0, "0", r#"{"per-mille": ""}"#), Err("D3083"));
}

#[test]
fn pattern_separator_splits_on_the_whole_value() {
    let aa = r#"{"pattern-separator": "aa"}"#;
    assert_eq!(fmt_opts(7.0, "0aa00", aa), Ok("7".to_string()));
    assert_eq!(fmt_opts(-7.0, "0aa00", aa), Ok("07".to_string()));
    assert_eq!(fmt_opts(7.0, "0;00", aa), Err("D3086"));
    assert_eq!(fmt_opts(-7.0, "0aa#0aa0", aa), Err("D3080"));
    let empty = r#"{"pattern-separator": ""}"#;
    assert_eq!(fmt_opts(7.0, "0", empty), Ok("7".to_string()));
    assert_eq!(fmt_opts(7.0, "00", empty), Ok("7".to_string()));
    assert_eq!(fmt_opts(7.0, "000", empty), Err("D3080"));
    assert_eq!(
        fmt_opts(7.0, "00", r#"{"pattern-separator": "0"}"#),
        Err("D3080")
    );
}

#[test]
fn exponent_separator_is_passive_in_the_prefix_suffix_scan() {
    assert_eq!(fmt(1234.5678, "e0.0"), "e1234.6");
    assert_eq!(fmt(0.234, "e0.0"), "e0.2");
    assert_eq!(fmt(1234.5678, "ee0.0"), "ee1234.6");
    assert_eq!(fmt(1234.5678, "0.0e0"), "1.2e3");
    assert_eq!(fmt(1234.5678, "0.0e0e"), "1.2e3e");
    assert_eq!(
        fmt_args(&[number(1234.5678), Value::String("0.0e".into())]),
        Err("D3093")
    );
    assert_eq!(
        fmt_args(&[number(1234.5678), Value::String("e0.0e".into())]),
        Err("D3093")
    );
    assert_eq!(
        fmt_args(&[number(1234.5678), Value::String("0e".into())]),
        Err("D3093")
    );
    assert_eq!(
        fmt_args(&[number(1234.5678), Value::String("e".into())]),
        Err("D3085")
    );

    let e_sep = r#"{"exponent-separator": "E"}"#;
    assert_eq!(
        fmt_opts(1234.5678, "E0.0", e_sep),
        Ok("E1234.6".to_string())
    );
    assert_eq!(fmt_opts(1234.5678, "0.0E", e_sep), Err("D3093"));
    assert_eq!(
        fmt_opts(1234.5678, "e0.0", e_sep),
        Ok("e1234.6".to_string())
    );
}

#[test]
fn separator_that_is_both_decimal_and_exponent_splits_the_exponent() {
    let both = r#"{"exponent-separator": "."}"#;
    assert_eq!(fmt_opts(1234.5678, "0.0", both), Ok("1.3".to_string()));
    assert_eq!(fmt_opts(1234.5678, "0.00", both), Ok("1.03".to_string()));
    assert_eq!(fmt_opts(1.3, "0.0", both), Ok("1.0".to_string()));
    assert_eq!(fmt_opts(1.3, "0.00", both), Ok("1.00".to_string()));
    assert_eq!(fmt_opts(1.3, "0.0.0", both), Err("D3093"));
}

#[test]
fn the_highest_numbered_violated_rule_is_reported() {
    for (picture, code) in [
        ("0%,", "D3088"),
        ("0#%0", "D3090"),
        ("0.0%e0", "D3092"),
        ("0.0e%0", "D3093"),
        ("#%.0.0#", "D3086"),
        ("‰,‰0- ", "D3086"),
        ("0.,,0", "D3089"),
    ] {
        assert_eq!(
            fmt_args(&[number(7.0), Value::String(picture.into())]),
            Err(code),
            "{picture}"
        );
    }
}

#[test]
fn grouping_separator_rules_span_the_whole_sub_picture() {
    for (picture, code) in [("0,.0", "D3087"), ("0.,0", "D3087"), ("0,,0", "D3089")] {
        assert_eq!(
            fmt_args(&[number(7.0), Value::String(picture.into())]),
            Err(code),
            "{picture}"
        );
    }
}

#[test]
fn exponent_part_must_be_digit_family() {
    for picture in ["0.0e#", "0.0e0#", "0.0e-0", "0.0e0,0", "0e0.0"] {
        assert_eq!(
            fmt_args(&[number(1234.5678), Value::String(picture.into())]),
            Err("D3093"),
            "{picture}"
        );
    }
}

#[test]
fn the_exponent_split_is_not_offset_by_the_prefix() {
    assert_eq!(fmt(1234.5678, "$0.0e0"), "$1.2e3");
    assert_eq!(
        fmt_opts(7.0, "-0E.0", r#"{"exponent-separator": "E"}"#),
        Err("D3093")
    );
}

#[test]
fn interior_percent_and_per_mille_are_picture_errors() {
    for pic in ["0,%.", "0,‰.", "#,%.", "0,%.0", "0%0", "0‰0"] {
        assert_eq!(
            fmt_args(&[number(7.0), Value::String(pic.into())]),
            Err("D3086"),
            "{pic}"
        );
    }
    assert_eq!(
        fmt_args(&[number(0.0), Value::String("0,%.".into())]),
        Err("D3086")
    );
    assert_eq!(fmt_opts(7.0, "0@0", r#"{"percent": "@"}"#), Err("D3086"));
    assert_eq!(fmt(1234.0, "#,##0%"), "123,400%");
    assert_eq!(fmt(7.0, "0%"), "700%");
    assert_eq!(fmt(7.0, "%0"), "%700");
}

#[test]
fn zero_grouping_position_is_emitted() {
    let dot = r#"{"exponent-separator": "."}"#;
    assert_eq!(fmt_opts(1.3, "#9,%. ", dot), Ok("130,%. ".to_string()));
}

fn equal_gap_rule(positions: &[usize]) -> usize {
    let mut sorted = positions.to_vec();
    sorted.sort_unstable();
    let Some(&primary) = sorted.first() else {
        return 0;
    };
    if primary == 0 {
        return 0;
    }
    if sorted.windows(2).all(|w| w[1] - w[0] == primary) {
        primary
    } else {
        0
    }
}

#[test]
fn regular_grouping_matches_equal_gap_rule() {
    for mask in 0u32..512 {
        let positions: Vec<usize> = (0..9).filter(|i| mask & (1 << i) != 0).collect();
        assert_eq!(
            regular_grouping(&positions),
            equal_gap_rule(&positions),
            "{positions:?}"
        );
    }
    for positions in [
        vec![],
        vec![2, 2],
        vec![1, 1],
        vec![2, 2, 4],
        vec![1, 2, 2],
        vec![0, 0],
        vec![3, 3, 3],
    ] {
        assert_eq!(
            regular_grouping(&positions),
            equal_gap_rule(&positions),
            "{positions:?}"
        );
    }
}

#[test]
fn grouping_regularity_agrees_on_the_candidate_separators() {
    assert_eq!(fmt(1_234_567_890.0, "####,##,##"), "12,34,56,78,90");
    assert_eq!(fmt(1_234_567_890.0, "#,####,##,##"), "12,3456,78,90");
    assert_eq!(fmt(1_234_567_890.0, "##,####,##"), "1234,5678,90");
    assert_eq!(fmt(1_234_567_890.0, "#,##,####"), "1234,56,7890");
    assert_eq!(fmt(1_234_567.0, "##,##,##"), "1,23,45,67");
    assert_eq!(fmt(123_456.0, "#,##,#"), "123,45,6");
}

#[test]
fn grouping_positions_past_the_number_wrap_around() {
    assert_eq!(fmt(7.0, "#,###,#"), ",,7");
    assert_eq!(fmt(1234.5678, "#,###,#"), ",123,5");
    assert_eq!(fmt(1234.5678, "9,9,99.99"), "1,2,34.57");
}
