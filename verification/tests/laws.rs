//! What the library states of all inputs, on some of them, and the edges.
use std::cmp::Ordering;

use jsntrs::environment::Environment;
use jsntrs::error::{JsonataError, JsonataResult};
use jsntrs::number::Number;
use jsntrs::expression::Expression;
use jsntrs::parser::ast::{push_children, AstArena, Expr, NodeId};
use jsntrs::parser::Parser;
use jsntrs::stdlib::datetime::format::format_with_picture;
use jsntrs::stdlib::datetime::parse_with_picture;
use jsntrs::stdlib::hof_fast::compare_by_field_checked;
use jsntrs::stdlib::number_words::apply_ordinal_word;
use jsntrs::stream::{report, StreamEvaluator};
use jsntrs::stdlib::array::{fn_append, fn_count, fn_distinct, fn_reverse, fn_shuffle, fn_zip, shuffle_with};
use jsntrs::stdlib::boolean::{fn_boolean, fn_not};
use jsntrs::stdlib::datetime::calendar::{days_to_ymd, ymd_to_epoch_days};
use jsntrs::stdlib::datetime::{fn_from_millis, millis_at, now_at, to_millis_at};
use jsntrs::stdlib::dispatch::{call_aware, call_standard};
use jsntrs::stdlib::encoding::{
    fn_base64_decode, fn_base64_encode, fn_decode_url, fn_decode_url_component, fn_encode_url, fn_encode_url_component,
};
use jsntrs::stdlib::format_integer::fn_format_integer;
use jsntrs::stdlib::format_number::{fn_format_number, regular_grouping};
use jsntrs::stdlib::hof::fn_sort;
use jsntrs::stdlib::numeric::{
    bankers_round, fn_average, fn_format_base, fn_number, fn_power, fn_random, fn_round, fn_sqrt, fn_sum, random_from,
};
use jsntrs::stdlib::object::{fn_keys, fn_lookup, fn_merge, fn_spread};
use jsntrs::stdlib::parse_integer::fn_parse_integer;
use jsntrs::stdlib::regex::{compile_regex, expand_replacement, fn_match, fn_replace};
use jsntrs::stdlib::string_funcs::{
    fn_contains, fn_join, fn_length, fn_lowercase, fn_pad, fn_split, fn_string, fn_substring_after, fn_substring_before,
    fn_trim, fn_uppercase,
};
use jsntrs::stdlib::register_all;
use jsntrs::stdlib::types::fn_type_of;
use jsntrs::try_sort::try_sort_by;
use jsntrs::value::{collapse_sequence, FunctionValue, ObjectMap, Value};

const U: &Value = &Value::Undefined;

fn n(x: f64) -> Value {
    Value::Number(Number { bits: x.to_bits() })
}

fn s(t: &str) -> Value {
    Value::String(t.to_string())
}

fn arr(items: Vec<Value>) -> Value {
    Value::Array(items)
}

fn obj(pairs: Vec<(&str, Value)>) -> Value {
    let mut o = ObjectMap::new();
    for (k, v) in pairs {
        o.insert(k.to_string(), v);
    }
    Value::Object(o)
}

fn pattern(p: &str) -> Value {
    obj(vec![("pattern", s(p)), ("flags", s(""))])
}

fn text(r: JsonataResult) -> String {
    match r {
        Ok(Value::String(t)) => t,
        other => panic!("expected text, got {other:?}"),
    }
}

fn float(r: JsonataResult) -> f64 {
    match r {
        Ok(Value::Number(x)) => f64::from_bits(x.bits),
        other => panic!("expected a number, got {other:?}"),
    }
}

fn code(r: JsonataResult) -> &'static str {
    match r {
        Err(e) => e.code,
        other => panic!("expected an error, got {other:?}"),
    }
}

fn json(v: &Value) -> String {
    text(fn_string(&[v.clone()], U))
}

fn given(r: JsonataResult) -> String {
    json(&r.unwrap())
}

fn no_call(_f: &FunctionValue, _a: &Vec<Value>, _v: &Value, _s: Option<usize>) -> JsonataResult {
    panic!("no function is called here")
}

/// Reads signatures by their length, and refuses one with a question mark.
fn read(inner: &str) -> Result<usize, JsonataError> {
    if inner.contains('?') {
        return Err(JsonataError::new("S0401", "no optional parameters").with_token(inner.to_string()));
    }
    Ok(inner.len())
}

fn no_poll(_step: usize) -> Result<(), JsonataError> {
    Ok(())
}

fn replace(a: &[Value]) -> JsonataResult {
    fn_replace(a, U, &no_call, &no_poll)
}

// ── Numbers ──────────────────────────────────────────────────────────────────

#[test]
fn parse_integer_undoes_format_integer() {
    for (picture, numbers) in [
        ("w", vec![0.0, 7.0, 21.0, 100.0, 1_234.0, 987_654_321.0, 999_999_999_999_999.0]),
        ("Ww", vec![13.0, 4_000_001.0]),
        ("w;o", vec![1.0, 12.0, 30.0, 123.0, 1_000_000.0]),
        ("I", vec![1.0, 4.0, 1_999.0, 2_024.0]),
        ("i", vec![9.0, 40.0]),
        ("a", vec![1.0, 26.0, 27.0, 702.0, 703.0]),
        ("A", vec![1.0, 18_278.0]),
        ("0", vec![0.0, 5.0, 12_345_678.0, -42.0]),
        ("000", vec![7.0, 1_234.0]),
        ("#,##0", vec![12.0, 1_234.0, 1_234_567.0]),
        ("\u{660}", vec![2_018.0]),
    ] {
        for x in numbers {
            let t = text(fn_format_integer(&[n(x), s(picture)], U));
            assert_eq!(float(fn_parse_integer(&[s(&t), s(picture)], U)), x, "{x} as {t:?} by {picture:?}");
        }
    }
}

#[test]
fn words_and_numerals_are_exact() {
    for (x, picture, t) in [
        (123.0, "w", "one hundred and twenty-three"),
        (123.0, "w;o", "one hundred and twenty-third"),
        (1_999.0, "I", "MCMXCIX"),
        (28.0, "a", "ab"),
        (1_234_567.0, "#,##0", "1,234,567"),
        (3.0, "1;o", "3rd"),
    ] {
        assert_eq!(text(fn_format_integer(&[n(x), s(picture)], U)), t);
    }
}

#[test]
fn number_undoes_string() {
    for x in [0.0, 1.0, -1.5, 0.1, 1e21, 1.5e-7, 123_456_789.125, 5e-324, f64::MAX, 9_007_199_254_740_993.0] {
        let t = text(fn_string(&[n(x)], U));
        assert_eq!(float(fn_number(&[s(&t)], U)), x, "{t}");
    }
}

#[test]
fn whole_numbers_are_exact() {
    for (a, b) in [(1_i64, 2_i64), (94_906_265, 94_906_265), (4_503_599_627_370_496, 3), (-7, 9)] {
        let (x, y) = (Number::from_i64(a), Number::from_i64(b));
        assert_eq!(x.plus(&y), Number::from_i64(a + b));
        assert_eq!(x.to_i64(), a);
        if a < 1_000_000_000 {
            assert_eq!(x.times(&y), Number::from_i64(a * b));
        }
    }
}

#[test]
fn arithmetic_rounds_to_the_nearest() {
    let of = |x: f64| Number { bits: x.to_bits() };
    for (a, b) in [(0.1, 0.2), (1e308, 1e308), (1e-300, 1e-300), (5e-324, 0.5), (-0.0, 0.0), (1.0, 3.0), (7.5, -2.0)] {
        assert_eq!(of(a).plus(&of(b)), of(a + b));
        assert_eq!(of(a).minus(&of(b)), of(a - b));
        assert_eq!(of(a).times(&of(b)), of(a * b));
        if b != 0.0 {
            assert_eq!(of(a).over(&of(b)), of(a / b));
            assert_eq!(of(a).rem(&of(b)), of(a % b));
        }
        assert_eq!(of(a).floor(), of(a.floor()));
        assert_eq!(of(a).ceil(), of(a.ceil()));
        assert_eq!(of(a).round(), of(a.round()));
        assert_eq!(of(a.abs()).sqrt(), of(a.abs().sqrt()));
    }
}

#[test]
fn halves_round_to_even() {
    for (x, scale, y) in [(0.5, 0, 0.0), (1.5, 0, 2.0), (2.5, 0, 2.0), (-3.5, 0, -4.0), (1.25, 1, 1.2), (125.0, -1, 120.0)] {
        let r = bankers_round(Number { bits: f64::to_bits(x) }, scale);
        assert_eq!(f64::from_bits(r.bits), y);
    }
    assert_eq!(float(fn_round(&[n(2.675), n(2.0)], U)), 2.68);
}

#[test]
fn numeric_errors() {
    assert_eq!(code(fn_sqrt(&[n(-1.0)], U)), "D3060");
    assert_eq!(code(fn_sqrt(&[], U)), "T0410");
    assert_eq!(code(fn_number(&[s("x")], U)), "D3030");
    assert_eq!(fn_number(&[s(" 1x ")], U).unwrap_err().message, "$number: unable to cast \"1x\" to a number");
    assert_eq!(code(fn_number(&[Value::Null], U)), "T0410");
    assert_eq!(code(fn_number(&[], &Value::Null)), "T0411");
    assert_eq!(code(fn_number(&[n(1.0), n(2.0)], U)), "T0410");
    assert_eq!(code(fn_sum(&[arr(vec![s("x")])], U)), "T0412");
    assert_eq!(fn_average(&[s("x")], U).unwrap_err().message, "$average: argument must be an array of numbers");
    assert_eq!(code(fn_format_base(&[n(1.0), n(37.0)], U)), "D3100");
    assert_eq!(code(fn_format_base(&[], U)), "T0410");
    let raise = |b: Number, e: Number| Number { bits: f64::from_bits(b.bits).powf(f64::from_bits(e.bits)).to_bits() };
    assert_eq!(float(fn_power(&[n(2.0), n(10.0)], U, raise)), 1024.0);
    assert_eq!(code(fn_power(&[n(10.0), n(400.0)], U, raise)), "D3061");
}

#[test]
fn chance_stays_within_bounds() {
    for _ in 0..100 {
        let x = float(fn_random(&[], U));
        assert!((0.0..1.0).contains(&x));
    }
    assert_eq!(float(random_from(0)), 0.0);
    assert_eq!(float(random_from(1 << 52)), 0.5);
}

#[test]
fn regular_groups_repeat() {
    assert_eq!(regular_grouping(&[3, 6, 9]), 3);
    assert_eq!(regular_grouping(&[2]), 2);
    assert_eq!(regular_grouping(&[3, 5]), 0);
    assert_eq!(regular_grouping(&[]), 0);
    assert_eq!(text(fn_format_number(&[n(1_234_567.0), s("#,##0")], U)), "1,234,567");
    assert_eq!(text(fn_format_number(&[n(1_234_567.0), s("#,##,##0")], U)), "12,34,567");
}

#[test]
fn picture_errors_say_which_rule_is_broken() {
    for (picture, rule, message) in [
        ("0;0;0", "D3080", "$formatNumber: picture has more than one pattern separator"),
        ("0.0.0", "D3081", "$formatNumber: picture has more than one decimal separator"),
        ("0%%", "D3082", "$formatNumber: picture has more than one percent character"),
        ("0‰‰", "D3083", "$formatNumber: picture has more than one per-mille character"),
        ("0%‰", "D3084", "$formatNumber: picture has both percent and per-mille characters"),
        (".", "D3085", "$formatNumber: picture mantissa has no digit placeholders"),
        ("0a0", "D3086", "$formatNumber: invalid character in active picture region"),
        ("0,.0", "D3087", "$formatNumber: grouping separator adjacent to decimal separator"),
        ("0,", "D3088", "$formatNumber: grouping separator at end of integer part"),
        ("0,,0", "D3089", "$formatNumber: adjacent grouping separators in picture"),
        ("0#", "D3090", "$formatNumber: optional digit cannot follow mandatory digit in integer part"),
        ("0.#0", "D3091", "$formatNumber: mandatory digit cannot follow optional digit in fraction part"),
        ("0e0%", "D3092", "$formatNumber: percent/per-mille cannot appear in picture with exponent separator"),
        ("0e#", "D3093", "$formatNumber: exponent part must comprise digit-family characters"),
    ] {
        let e = fn_format_number(&[n(1.0), s(picture)], U).unwrap_err();
        assert_eq!((e.code, e.message.as_str()), (rule, message), "{picture}");
    }
}

// ── Text ─────────────────────────────────────────────────────────────────────

#[test]
fn join_undoes_split() {
    for (t, sep) in [("a,b,,c,", ","), ("", "x"), ("abab", "ab"), ("naïve – x – y", " – ")] {
        let parts = fn_split(&[s(t), s(sep)], U).unwrap();
        assert_eq!(text(fn_join(&[parts, s(sep)], U)), t);
    }
}

#[test]
fn replace_is_split_and_join() {
    for (t, old, new) in [("a-b-c", "-", "+"), ("aaaa", "aa", "b"), ("none", "x", "y"), ("--", "-", "")] {
        let parts = fn_split(&[s(t), s(old)], U).unwrap();
        assert_eq!(text(replace(&[s(t), s(old), s(new)])), text(fn_join(&[parts, s(new)], U)));
    }
    assert_eq!(text(replace(&[s("aaaa"), s("a"), s("b"), n(2.0)])), "bbaa");
}

#[test]
fn regex_replace_is_split_and_join() {
    let parts = fn_split(&[s("a1b22c"), pattern("[0-9]+")], U).unwrap();
    assert_eq!(json(&parts), r#"["a","b","c"]"#);
    assert_eq!(text(replace(&[s("a1b22c"), pattern("[0-9]+"), s("-")])), text(fn_join(&[parts, s("-")], U)));
}

#[test]
fn a_match_replaced_by_itself_changes_nothing() {
    for t in ["a1b22c", "", "é1—2", "no digits"] {
        assert_eq!(text(replace(&[s(t), pattern("[0-9]+"), s("$0")])), t);
    }
    assert_eq!(code(replace(&[s("abc"), pattern("x*"), s("$0")])), "D1004");
}

#[test]
fn back_references_take_as_many_digits_as_there_are_groups() {
    let expand = |repl: &str| -> String {
        let c: Vec<char> = repl.chars().collect();
        let full: Vec<char> = "ab".chars().collect();
        expand_replacement(&c, &full, &vec![vec!['a'], vec!['b']]).into_iter().collect()
    };
    assert_eq!(expand("plain"), "plain");
    assert_eq!(expand("$2$1$0"), "baab");
    assert_eq!(expand("$12"), "a2");
    assert_eq!(expand("$$1"), "$1");
    assert_eq!(expand("$x$"), "$x$");
    assert_eq!(expand("$9"), "");
}

#[test]
fn places_of_a_match_count_characters() {
    let r = fn_match(&[s("né—42!"), pattern("([0-9])([0-9])")], U, &no_call, &no_poll).unwrap();
    assert_eq!(json(&r), r#"[{"match":"42","start":3,"end":5,"groups":["4","2"]}]"#);
}

#[test]
fn patterns_have_flags() {
    assert!(compile_regex("ABC", "i").unwrap().is_match("xabcx"));
    assert!(!compile_regex("ABC", "").unwrap().is_match("xabcx"));
    assert!(compile_regex("^b", "m").unwrap().is_match("a\nb"));
    assert_eq!(compile_regex("(", "").unwrap_err().code, "D3137");
    assert!(matches!(fn_contains(&[s("abc"), pattern("b.")], U), Ok(Value::Bool(true))));
    assert_eq!(compile_regex("b", "").unwrap().split("abcb"), vec!["a", "c", ""]);
}

#[test]
fn before_and_after_make_up_the_text() {
    let (t, sep) = ("key=value=more", "=");
    let before = text(fn_substring_before(&[s(t), s(sep)], U));
    let after = text(fn_substring_after(&[s(t), s(sep)], U));
    assert_eq!(format!("{before}{sep}{after}"), t);
    let e = fn_substring_before(&[s(t), n(1.0)], U).unwrap_err();
    assert_eq!((e.code, e.message.as_str()), ("T0410", "$substringBefore: argument 2 must be a string"));
    assert_eq!(code(fn_substring_after(&[s("a")], &n(1.0))), "T0411");
}

#[test]
fn padded_text_is_as_wide_as_asked() {
    assert_eq!(text(fn_pad(&[s("foo"), n(-8.0), s("#-")], U)), "#-#-#foo");
    assert_eq!(float(fn_length(&[fn_pad(&[s("foo"), n(10.0)], U).unwrap()], U)), 10.0);
    assert_eq!(text(fn_pad(&[s("foobar"), n(3.0)], U)), "foobar");
    assert_eq!(code(fn_pad(&[s("x"), n(10_001.0)], U)), "D3010");
}

#[test]
fn case_maps_beyond_ascii() {
    assert_eq!(text(fn_uppercase(&[s("straße é")], U)), "STRASSE É");
    assert_eq!(text(fn_lowercase(&[s("ÀB1")], U)), "àb1");
}

#[test]
fn base64_and_url_encodings_are_undone() {
    for t in ["", "a", "héllo wörld", "a&b=c/d?e#f", "100% ☃", "\u{1F600}"] {
        let b = fn_base64_encode(&[s(t)], U).unwrap();
        assert_eq!(text(fn_base64_decode(&[b], U)), t);
        let u = fn_encode_url(&[s(t)], U).unwrap();
        assert_eq!(text(fn_decode_url(&[u], U)), t);
        let c = fn_encode_url_component(&[s(t)], U).unwrap();
        assert_eq!(text(fn_decode_url_component(&[c], U)), t);
    }
    assert_eq!(text(fn_base64_encode(&[s("hello")], U)), "aGVsbG8=");
    assert_eq!(text(fn_encode_url(&[s("a b/é")], U)), "a%20b/%C3%A9");
    assert_eq!(text(fn_encode_url_component(&[s("a b/é")], U)), "a%20b%2F%C3%A9");
    assert_eq!(code(fn_base64_decode(&[s("!")], U)), "D3010");
    assert_eq!(code(fn_base64_decode(&[s("/w==")], U)), "D3010");
    assert_eq!(code(fn_decode_url(&[s("%FF")], U)), "D3140");
}

// ── Lists and objects ────────────────────────────────────────────────────────

#[test]
fn reversing_twice_gives_the_list_back() {
    let a = arr(vec![n(1.0), s("x"), Value::Null]);
    let once = fn_reverse(&[a.clone()], U).unwrap();
    assert_eq!(json(&once), r#"[null,"x",1]"#);
    assert_eq!(json(&fn_reverse(&[once], U).unwrap()), json(&a));
}

#[test]
fn a_shuffle_keeps_what_it_is_given() {
    let items: Vec<Value> = (0..20).map(|i| n(f64::from(i))).collect();
    let shuffled = fn_shuffle(&[arr(items.clone())], U).unwrap();
    assert_eq!(float(fn_sum(&[shuffled.clone()], U)), 190.0);
    assert_eq!(float(fn_count(&[fn_distinct(&[shuffled], U).unwrap()], U)), 20.0);
    let picked = shuffle_with(vec![s("a"), s("b"), s("c")], &[0, 0]);
    assert_eq!(json(&arr(picked)), r#"["b","c","a"]"#);
}

#[test]
fn distinct_keeps_the_first_of_equals() {
    let a = arr(vec![n(1.0), s("1"), n(1.0), obj(vec![("a", n(1.0))]), obj(vec![("a", n(1.0))]), Value::Null]);
    let d = fn_distinct(&[a], U).unwrap();
    assert_eq!(json(&d), r#"[1,"1",{"a":1},null]"#);
    assert_eq!(json(&fn_distinct(&[d.clone()], U).unwrap()), json(&d));
}

#[test]
fn equality_goes_both_ways() {
    let a = obj(vec![("x", n(1.0)), ("y", arr(vec![Value::Null, s("t")]))]);
    let b = obj(vec![("y", arr(vec![Value::Null, s("t")])), ("x", n(1.0))]);
    let c = obj(vec![("x", n(1.0))]);
    assert!(a.deep_equal(&b) && b.deep_equal(&a));
    assert!(!a.deep_equal(&c) && !c.deep_equal(&a));
}

#[test]
fn append_and_zip() {
    assert_eq!(given(fn_append(&[arr(vec![n(1.0)]), n(2.0)], U)), "[1,2]");
    assert_eq!(given(fn_zip(&[arr(vec![n(1.0), n(2.0)]), arr(vec![s("a"), s("b"), s("c")])], U)), r#"[[1,"a"],[2,"b"]]"#);
    assert_eq!(code(fn_append(&[n(1.0)], U)), "T0410");
}

#[test]
fn merge_undoes_spread_and_later_wins() {
    let o = obj(vec![("a", n(1.0)), ("b", Value::Null), ("c", s("x"))]);
    let spread = collapse_sequence(fn_spread(&[o.clone()], U).unwrap());
    assert_eq!(json(&spread), r#"[{"a":1},{"b":null},{"c":"x"}]"#);
    assert_eq!(json(&fn_merge(&[spread], U).unwrap()), json(&o));
    let m = fn_merge(&[arr(vec![o.clone(), obj(vec![("b", n(2.0)), ("d", n(4.0))])])], U).unwrap();
    assert_eq!(json(&m), r#"{"a":1,"b":2,"c":"x","d":4}"#);
    assert_eq!(given(fn_keys(&[o.clone()], U)), r#"["a","b","c"]"#);
    assert_eq!(text(fn_lookup(&[o, s("c")], U)), "x");
}

#[test]
fn not_is_the_opposite_of_boolean() {
    for v in [n(0.0), n(2.0), s(""), s("x"), Value::Null, arr(vec![n(0.0)]), arr(vec![n(1.0)]), obj(vec![])] {
        let b = fn_boolean(&[v.clone()], U).unwrap();
        let c = fn_not(&[v], U).unwrap();
        assert_eq!(json(&b) == "true", json(&c) == "false");
    }
}

#[test]
fn sorting_without_a_comparator_is_ascending() {
    let sort = |items: Vec<Value>| fn_sort(&[arr(items)], U, &AstArena::new(), &no_call);
    assert_eq!(given(sort(vec![n(3.0), n(-1.0), n(2.5), n(3.0)])), "[-1,2.5,3,3]");
    assert_eq!(given(sort(vec![s("b"), s("B"), s("a")])), r#"["B","a","b"]"#);
    assert_eq!(code(sort(vec![n(1.0), s("a")])), "T2007");
    assert_eq!(code(sort(vec![obj(vec![]), obj(vec![])])), "D3070");
}

// ── Time ─────────────────────────────────────────────────────────────────────

#[test]
fn to_millis_undoes_from_millis() {
    for ms in [0.0, 1_509_380_732_935.0, -1.0, -62_167_219_200_000.0, 253_402_300_799_999.0, 951_782_400_000.0] {
        for zone in ["+0000", "-0330", "+1400"] {
            let t = fn_from_millis(&[n(ms), Value::Undefined, s(zone)], U);
            if let Ok(t) = t {
                let back = to_millis_at(&[t.clone()], 0);
                if ms > -62_000_000_000_000.0 && ms < 253_000_000_000_000.0 {
                    assert_eq!(float(back), ms, "{}", json(&t));
                }
            }
        }
    }
    assert_eq!(text(fn_from_millis(&[n(0.0), Value::Undefined, s("-0330")], U)), "1969-12-31T20:30:00.000-03:30");
}

#[test]
fn every_day_has_one_date() {
    for day in (-800_000..800_000).step_by(997) {
        let (y, m, d) = days_to_ymd(day);
        assert_eq!(ymd_to_epoch_days(y, m, d), day);
    }
    assert_eq!(days_to_ymd(11_016), (2000, 2, 29));
}

#[test]
fn the_calendar_reaches_as_far_as_years_do() {
    let first = ymd_to_epoch_days(i32::MIN, 1, 1);
    let last = ymd_to_epoch_days(i32::MAX, 12, 31);
    assert_eq!((first, last), (-784_353_015_833, 784_351_576_776));
    assert_eq!(days_to_ymd(first), (i32::MIN, 1, 1));
    assert_eq!(days_to_ymd(last), (i32::MAX, 12, 31));
    assert_eq!(days_to_ymd(last - 365), (i32::MAX - 1, 12, 31));
    assert_eq!(ymd_to_epoch_days(1970, 1, 1), 0);
    assert_eq!(ymd_to_epoch_days(0, 2, 29) + 1, ymd_to_epoch_days(0, 3, 1));
    assert_eq!(ymd_to_epoch_days(-1, 12, 31) + 1, ymd_to_epoch_days(0, 1, 1));
}

#[test]
fn the_time_of_a_call_can_be_given() {
    assert_eq!(text(now_at(&[], 1_509_380_732_935)), "2017-10-30T16:25:32.935Z");
    assert_eq!(float(millis_at(7)), 7.0);
    assert_eq!(code(to_millis_at(&[s("x")], 0)), "D3110");
    assert_eq!(
        to_millis_at(&[s("x")], 0).unwrap_err().message,
        "$toMillis: the value 'x' does not match the standard datetime format"
    );
    assert_eq!(code(to_millis_at(&[s("x"), s("[q]")], 0)), "D3132");
    assert_eq!(code(to_millis_at(&[s("x"), s("[YN]")], 0)), "D3133");
    assert_eq!(code(fn_from_millis(&[n(0.0), s("[Z010101]"), s("+0100")], U)), "D3134");
    assert_eq!(code(fn_from_millis(&[n(0.0), s("[Y")], U)), "D3135");
    assert_eq!(code(fn_from_millis(&[n(0.0), Value::Undefined, s("nowhere")], U)), "D3137");
}

#[test]
fn pictures_are_read_and_written() {
    assert_eq!(format_with_picture(0, "[Y0001]-[M01]-[D01] [H01]:[m01]", 3_600).unwrap(), "1970-01-01 01:00");
    assert_eq!(parse_with_picture("1970-01-02", "[Y0001]-[M01]-[D01]").unwrap(), Some(86_400_000));
    assert_eq!(parse_with_picture("no date", "[Y0001]").unwrap(), None);
}

// ── Expressions ──────────────────────────────────────────────────────────────

#[test]
fn what_is_parsed_is_a_tree() {
    for src in [
        "a.b[c = 1]{d: $sum(e)}^(<f, >g)",
        "($x := 1; function($y)<n:n>{$x + -$y}(2) ~> $string)",
        "{'a': [1..3], 'b': c ? d : e, 'f': |g|{'h': 1}, ['i']|}",
        "Account.Order@$o.Product#$i.{ 'o': $o, 'i': $i }",
        "f(?, 1)[] ?? %.g ?: **",
    ] {
        let (arena, root) = Parser::parse(src, &read).unwrap();
        let mut parents = vec![0; arena.len()];
        for i in 0..arena.len() {
            let mut kids = Vec::new();
            push_children(arena.get(NodeId { index: u32::try_from(i).unwrap() }), &mut kids);
            for kid in kids {
                if !kid.is_empty() {
                    parents[kid.index as usize] += 1;
                }
            }
        }
        assert!(parents.iter().all(|n| *n <= 1), "{src}");
        assert_eq!(parents[root.index as usize], 0, "{src}");
    }
    let (arena, root) = Parser::parse("", &read).unwrap();
    assert!(arena.is_empty() && root.is_empty());
}

#[test]
fn long_chains_have_the_room_they_need() {
    for (link, n) in [("+1", 20_000), (".a", 400), ("[0]", 5_000), (" & b", 5_000)] {
        let src = format!("a{}", link.repeat(n));
        let r = Expression::compile(&src, &read);
        assert!(r.is_ok(), "{link} {:?}", r.err());
    }
    for deep in [format!("{}1{}", "(".repeat(600), ")".repeat(600)), format!("a{}", ".a".repeat(600))] {
        assert_eq!(Expression::compile(&deep, &read).unwrap_err().code, "S0210");
    }
}

#[test]
fn nodes_can_be_changed_in_place() {
    let (mut arena, root) = Parser::parse("a", &read).unwrap();
    *arena.get_mut(root) = Expr::Placeholder { pos: 7 };
    assert_eq!(arena.get(root).pos(), 7);
    assert_eq!(arena.len(), 1);
}

#[test]
fn items_are_compared_by_a_field() {
    let item = |x: f64| obj(vec![("x", n(x))]);
    assert_eq!(compare_by_field_checked(&item(1.0), &item(2.0), "x").unwrap(), -1);
    assert_eq!(compare_by_field_checked(&item(2.0), &item(2.0), "x").unwrap(), 0);
    assert_eq!(compare_by_field_checked(&item(3.0), &item(2.0), "x").unwrap(), 1);
    assert!(compare_by_field_checked(&item(3.0), &obj(vec![("x", Value::Null)]), "x").is_err());
}

#[test]
fn words_become_ordinal() {
    assert_eq!(apply_ordinal_word("twenty-one"), "twenty-first");
    assert_eq!(apply_ordinal_word("twelve"), "twelfth");
    assert_eq!(apply_ordinal_word("forty"), "fortieth");
}

#[test]
fn a_stream_keeps_its_slots() {
    let mut stream = StreamEvaluator::new(vec![Expression::compile("a", &read).unwrap()]);
    let i = stream.compile("b", &read).unwrap();
    assert_eq!((i, stream.len()), (1, 2));
    stream.remove(0).unwrap();
    assert_eq!(stream.len(), 2);
    let e = stream.remove(5).unwrap_err();
    assert_eq!((e.code, e.message.as_str()), ("D0000", "expression index 5 out of range [0, 2)"));
    stream.reset();
    assert!(stream.is_empty());
}

#[test]
fn rounding_settles_and_keeps_the_sign() {
    for x in [0.0, 0.3, 0.5, 1.5, 2.5, 2.675, 1.005, 123.456, 1e-7, 4.35, 9.995, 1e21, f64::MAX, f64::MIN_POSITIVE] {
        for p in [0.0, 1.0, 2.0, 3.0, 15.0, 400.0, 1000.0] {
            let r = float(fn_round(&[n(x), n(p)], U));
            assert!(r.is_finite());
            assert_eq!(float(fn_round(&[n(r), n(p)], U)), r);
            let opposite = float(fn_round(&[n(-x), n(p)], U));
            assert_eq!(opposite, -r);
            assert_eq!(float(fn_round(&[n(opposite), n(p)], U)), opposite);
        }
    }
    assert_eq!(float(fn_round(&[n(2.675), n(2.0)], U)), 2.68);
    let low = float(fn_round(&[n(-0.3), n(0.0)], U));
    assert!(low == 0.0 && low.is_sign_negative());
    assert!(float(fn_round(&[n(low), n(0.0)], U)).is_sign_positive());
}

#[test]
fn one_or_no_item_is_sorted_without_a_comparison() {
    let never = |_a: &i32, _b: &i32| -> Result<Ordering, &'static str> { Err("asked") };
    assert_eq!(try_sort_by(vec![7], &never), Ok(vec![7]));
    assert_eq!(try_sort_by(Vec::new(), &never), Ok(Vec::new()));
    assert_eq!(try_sort_by(vec![7, 8], &never), Err("asked"));
}

#[test]
fn a_text_that_does_not_compile_leaves_a_stream_as_it_is() {
    let mut stream = StreamEvaluator::new(Vec::new());
    stream.compile("a", &read).unwrap();
    let e = stream.compile("a := 1", &read).unwrap_err();
    assert_eq!((e.code, e.position), ("S0212", Some(2)));
    let e = stream.compile("a b", &read).unwrap_err();
    assert_eq!((e.code, e.position, e.token.as_str()), ("S0201", Some(2), "b"));
    assert_eq!(e.message, "unexpected token: b");
    let e = stream.compile("a +", &read).unwrap_err();
    assert_eq!((e.code, e.message.as_str()), ("S0207", "nothing follows the \"+\" operator"));
    assert_eq!(stream.len(), 1);
}

#[test]
fn evaluating_one_is_evaluating_a_list_of_one() {
    let stream = StreamEvaluator::new(vec![
        Expression::compile("1", &read).unwrap(),
        Expression::compile("$error()", &read).unwrap(),
        Expression::compile("()", &read).unwrap(),
    ]);
    // An evaluator of literals alone, which refuses everything else.
    let eval = |e: &Expression, _input: &Value, _env: Option<&Environment>| -> (JsonataResult, bool) {
        let r = match e.arena.get(e.root) {
            Expr::NumberLit { .. } => Ok(n(1.0)),
            Expr::Block { .. } => Ok(Value::Undefined),
            _ => Err(JsonataError::new("D0001", "refused").with_position(4)),
        };
        (r, false)
    };
    for i in 0..4 {
        let one = stream.eval_one(U, i, &eval);
        match stream.eval_many(U, &[i], &eval) {
            Ok(results) => {
                assert_eq!(results.len(), 1);
                match &results[0] {
                    Some(v) => assert_eq!(json(v), json(&one.unwrap())),
                    None => assert!(one.unwrap().is_undefined()),
                }
            }
            Err(e) => {
                let whole = one.unwrap_err();
                assert_eq!((whole.code, whole.message, whole.position), (e.code, e.message, e.position));
                assert_eq!((e.code, e.position), ("D0001", Some(4)));
            }
        }
    }
    let e = stream.eval_many(U, &[0, 1, 2], &eval).unwrap_err();
    assert_eq!((e.code, e.position), ("D0001", Some(4)));
}

#[test]
fn names_lead_to_their_functions() {
    let raise = |a: Number, b: Number| Number { bits: f64::from_bits(a.bits).powf(f64::from_bits(b.bits)).to_bits() };
    let call = |name: &str, args: &[Value]| call_standard(name, args, U, raise);
    assert_eq!(text(call("uppercase", &[s("a")]).unwrap()), "A");
    assert_eq!(text(call("lowercase", &[s("A")]).unwrap()), "a");
    assert_eq!(float(call("length", &[s("abc")]).unwrap()), 3.0);
    assert_eq!(float(call("power", &[n(2.0), n(10.0)]).unwrap()), 1024.0);
    assert_eq!(float(call("max", &[arr(vec![n(1.0), n(3.0), n(2.0)])]).unwrap()), 3.0);
    assert_eq!(float(call("min", &[arr(vec![n(1.0), n(3.0), n(2.0)])]).unwrap()), 1.0);
    assert_eq!(float(call("average", &[arr(vec![n(1.0), n(3.0)])]).unwrap()), 2.0);
    assert_eq!(text(call("base64encode", &[s("a")]).unwrap()), "YQ==");
    assert_eq!(text(call("base64decode", &[s("YQ==")]).unwrap()), "a");
    assert_eq!(text(call("type", &[n(1.0)]).unwrap()), "number");
    assert_eq!(text(call("fromMillis", &[n(0.0)]).unwrap()), "1970-01-01T00:00:00.000Z");
    assert_eq!(given(call("keys", &[obj(vec![("a", n(1.0)), ("b", n(2.0))])]).unwrap()), "[\"a\",\"b\"]");
    assert_eq!(code(call("error", &[s("why")]).unwrap()), "D3137");
    assert!(call("map", &[]).is_none());
    assert!(call("nothing", &[]).is_none());
    let mut env = Environment::new();
    register_all(&mut env);
    let arena = AstArena::new();
    let lookup = |_s: usize, _n: &str| -> Option<Value> { None };
    let enter = |_d: u32| -> Result<(), JsonataError> { Ok(()) };
    let run = |_e: &Expression, _c: &Value| -> JsonataResult { Err(JsonataError::new("T2001", "not a number")) };
    let leave = || ();
    let aware = |name: &str, args: &[Value]| {
        call_aware(name, args, U, &arena, &no_call, &no_poll, &lookup, &read, &enter, &run, &leave)
    };
    assert_eq!(given(aware("sort", &[arr(vec![n(2.0), n(1.0)])]).unwrap()), "[1,2]");
    assert_eq!(text(aware("replace", &[s("aba"), s("a"), s("c")]).unwrap()), "cbc");
    assert!(aware("length", &[s("a")]).is_none());
    let e = aware("eval", &[s("1 +")]).unwrap().unwrap_err();
    assert_eq!(
        (e.code, e.message.as_str()),
        ("D3120", "$eval: invalid expression: S0207: nothing follows the \"+\" operator")
    );
    let e = aware("eval", &[s("1")]).unwrap().unwrap_err();
    assert_eq!((e.code, e.message.as_str()), ("D3121", "unable to evaluate expression: not a number"));
    for (name, f) in standard_functions(&env) {
        let found = match f {
            FunctionValue::EnvAwareBuiltin(_) => aware(&name, &[]).is_some(),
            _ => call(&name, &[]).is_some(),
        };
        assert!(found, "${name} is bound and not called");
    }
}

fn standard_functions(env: &Environment) -> Vec<(String, FunctionValue)> {
    let names = [
        "string", "sum", "count", "keys", "boolean", "assert", "now", "toMillis", "map", "filter", "reduce", "each", "sift",
        "single", "match", "eval", "random", "shuffle", "zip", "formatInteger", "parseInteger",
    ];
    names
        .iter()
        .map(|name| match env.lookup(name) {
            Some(Value::Function(f)) => (name.to_string(), f),
            other => panic!("${name} is {other:?}"),
        })
        .collect()
}

#[test]
fn errors_say_what_they_are_about() {
    let message = |r: JsonataResult| r.unwrap_err().message;
    assert_eq!(message(fn_parse_integer(&[s("x"), s("#0")], U)), "$parseInteger: cannot parse \"x\" as integer");
    assert_eq!(message(fn_parse_integer(&[s("XQ"), s("I")], U)), "$parseInteger: invalid Roman numeral \"XQ\"");
    assert_eq!(message(fn_parse_integer(&[s("one foo"), s("w")], U)), "$parseInteger: unknown word in \"one foo\"");
    assert!(message(fn_from_millis(&[n(0.0), Value::Undefined, s("nowhere")], U))
        .starts_with("unknown timezone \"nowhere\": expected a numeric offset"));
    assert_eq!(message(fn_contains(&[s("a"), pattern("(")], U)), "$contains: invalid regex: invalid regex: (");
    assert_eq!(message(fn_split(&[s("a"), pattern("(")], U)), "$split: invalid regex: invalid regex: (");
    assert_eq!(compile_regex("(", "i").unwrap_err().message, "invalid regex: (?i)(");
    assert_eq!(
        message(fn_from_millis(&[n(0.0), s("[q]")], U)),
        "unknown component specifier \"q\" in the date/time picture string"
    );
    assert_eq!(message(fn_format_integer(&[n(1.0), s("x?")], U)), "$formatInteger: unsupported picture string \"x?\"");
}

#[test]
fn signatures_are_read_as_they_are_compiled() {
    let e = Expression::compile("function($x) <n:n> { $x }", &read).unwrap();
    match e.arena.get(e.root) {
        Expr::Lambda { signature: Some(g), .. } => assert_eq!((g.raw.as_str(), g.params), ("<n:n>", 3)),
        other => panic!("{other:?}"),
    }
    let e = Expression::compile("1 + function($x) <a<n>?:n> { $x +", &read).unwrap_err();
    assert_eq!((e.code, e.position, e.token.as_str()), ("S0401", Some(17), "a<n>?:n"));
    let e = Expression::compile("function($x) <n", &read).unwrap_err();
    assert_eq!(e.code, "S0202");
    let e = Expression::compile("+ function($x) <?> { $x }", &read).unwrap_err();
    assert_eq!(e.code, "S0211");
    let lookup = |_s: usize, _n: &str| -> Option<Value> { None };
    let enter = |_d: u32| -> Result<(), JsonataError> { Ok(()) };
    let run = |_e: &Expression, _c: &Value| -> JsonataResult { Ok(n(1.0)) };
    let leave = || ();
    let arena = AstArena::new();
    let r = call_aware(
        "eval",
        &[s("function($x) <?> { $x }")],
        U,
        &arena,
        &no_call,
        &no_poll,
        &lookup,
        &read,
        &enter,
        &run,
        &leave,
    );
    assert_eq!(r.unwrap().unwrap_err().message, "$eval: invalid expression: S0401: no optional parameters");
}

#[test]
fn the_first_failing_comparison_ends_a_sort() {
    let asked = std::cell::RefCell::new(Vec::new());
    let order = |a: &i32, b: &i32| -> Result<Ordering, i32> {
        asked.borrow_mut().push((*a, *b));
        if *a == 3 || *b == 3 {
            Err(10 * a + b)
        } else {
            Ok(a.cmp(b))
        }
    };
    assert_eq!(try_sort_by(vec![2, 1, 4, 3, 5], &order), Err(34));
    assert_eq!(*asked.borrow(), vec![(1, 2), (3, 4)]);
}

#[test]
fn what_is_told_of_an_evaluation() {
    let given: JsonataResult = Ok(n(1.0));
    let r = report(3, true, &given);
    assert!((r.expr_index, r.fast_path) == (3, true) && r.err.is_none());
    let failed: JsonataResult = Err(JsonataError::new("D0001", "no"));
    let r = report(4, true, &failed);
    assert_eq!((r.expr_index, r.fast_path, r.err.unwrap().code), (4, false, "D0001"));
}

#[test]
fn infinities_are_shown() {
    let e = fn_type_of(&[n(f64::INFINITY)], U).unwrap_err();
    assert_eq!((e.code, e.value.as_str()), ("D1001", "Infinity"));
    let e = fn_boolean(&[arr(vec![n(1.0), n(f64::NEG_INFINITY), n(f64::INFINITY)])], U).unwrap_err();
    assert_eq!((e.code, e.value.as_str()), ("D1001", "-Infinity"));
    let e = fn_not(&[n(f64::INFINITY)], U).unwrap_err();
    assert_eq!((e.code, e.value.as_str()), ("D1001", "Infinity"));
}

#[test]
fn trimming_keeps_words_and_settles() {
    for x in ["", " ", "a", "  a  b\t\n c ", "\u{a0}x\u{2003}\u{2003}y\u{3000}", "a b"] {
        let t = text(fn_trim(&[s(x)], U));
        assert_eq!(t.split_whitespace().collect::<Vec<_>>(), x.split_whitespace().collect::<Vec<_>>());
        assert_eq!(t, x.split_whitespace().collect::<Vec<_>>().join(" "));
        assert_eq!(text(fn_trim(&[s(&t)], U)), t);
    }
}

#[test]
fn parse_integer_undoes_format_integer_at_the_edges() {
    let limit = 9_007_199_254_740_992.0;
    for (x, p) in [
        (999_999_999_999_999.0, "w"),
        (0.0, "w"),
        (3999.0, "I"),
        (limit, "a"),
        (limit, "#,##0"),
        (-limit, "#,##0"),
    ] {
        let t = fn_format_integer(&[n(x), s(p)], U).unwrap();
        assert_eq!(float(fn_parse_integer(&[t, s(p)], U)), x);
    }
}
