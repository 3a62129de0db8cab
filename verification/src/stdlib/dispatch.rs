//! The functions of the standard library by the names that they are bound to.
use vstd::prelude::*;
use vstd::utf8::encode_utf8;

use super::args::{arg, context_code};
use super::array::{
    append, count, distinct, elements, flatten, fn_append, fn_count, fn_distinct, fn_flatten, fn_reverse, fn_shuffle,
    fn_zip, reverse, some_shuffle, zip,
};
use super::boolean::{boolean, exists_spec, fn_boolean, fn_exists, fn_not, not};
use super::datetime::{
    fn_from_millis, fn_millis, fn_now, fn_to_millis, from_millis, millis_result, now_result, to_millis,
};
use super::encoding::{
    base64_bytes, base64_decode, base64_encode, decode_url, encode_url, encode_url_component, fits_base64,
    fn_base64_decode, fn_base64_encode, fn_decode_url, fn_decode_url_component, fn_encode_url, fn_encode_url_component,
};
use super::eval_fn::{eval_context, fn_eval, may_give};
use super::format_integer::{fn_format_integer, format_integer};
use super::format_number::{fn_format_number, format_number};
use super::hof::{
    each_args, each_course, filter_course, filter_way, fn_each, fn_filter, fn_map, fn_reduce, fn_sift, fn_single,
    fn_sort, items_and_function, map_ends, may_sort, only_one, reduce_course, reduce_way, sift_args, sift_course,
    single_course, single_way, sort_args, sort_way, too_narrow,
};
use super::host::open_to_all;
use super::numeric::{
    abs_result, average_result, ceil_result, floor_result, fn_abs, fn_average, fn_ceil, fn_floor, fn_format_base,
    fn_max, fn_min, fn_number, fn_power, fn_random, fn_round, fn_sqrt, fn_sum, format_base, max_result, min_result,
    number_result, power_operands, powered, round_result, sqrt_result, sum_result, unit_fraction,
};
use super::object::{
    error_code, fn_error, fn_keys, fn_lookup, fn_merge, fn_spread, fn_values, keys, lookup, merge, spread, values,
};
use super::parse_integer::{fn_parse_integer, parse_integer};
use super::regex::{
    fn_match, fn_replace, match_course, match_subject, matched, regex_captures, regex_of, replace, replace_course,
    replace_subject, replaces_by_function,
};
use super::standard_library;
use super::string_funcs::{
    contains, fn_contains, fn_join, fn_length, fn_lowercase, fn_pad, fn_split, fn_string, fn_substring,
    fn_substring_after, fn_substring_before, fn_trim, fn_uppercase, join, length, lower, pad, split, string, substring,
    substring_after, substring_before, trim_spec, upper,
};
use super::types::{assertion, assertion_message, fn_assert, fn_type_of, type_of};
use crate::decimal::number_text;
use crate::error::{out, told, JsonataError, JsonataResult};
use crate::expression::Expression;
use crate::number::Number;
use crate::parser::ast::{AstArena, Node};
use crate::parser::{readable, readings, Readings};
use crate::text::{chars_of, is_text};
use crate::value::{items_of, untrue, vals, Code, Fun, FunctionValue, Val, Value};

verus! {

// ── Names ────────────────────────────────────────────────────────────────────

/// A number by which the names of the standard library can be told apart.
spec fn mark(s: Seq<char>) -> int {
    (((s.len() * 128 + s[0] as int) * 128 + s[1] as int) * 128 + s[2] as int) * 128 + (if s.len() > 6 {
        s[6] as int
    } else {
        0
    })
}

/// Names of functions of text.
pub open spec fn text_name(n: Seq<char>) -> bool {
    ||| n == "string"@
    ||| n == "length"@
    ||| n == "substring"@
    ||| n == "substringBefore"@
    ||| n == "substringAfter"@
    ||| n == "uppercase"@
    ||| n == "lowercase"@
    ||| n == "trim"@
    ||| n == "pad"@
    ||| n == "contains"@
    ||| n == "split"@
    ||| n == "join"@
    ||| n == "base64encode"@
    ||| n == "base64decode"@
    ||| n == "encodeUrl"@
    ||| n == "encodeUrlComponent"@
    ||| n == "decodeUrl"@
    ||| n == "decodeUrlComponent"@
}

/// Names of functions of numbers.
pub open spec fn number_name(n: Seq<char>) -> bool {
    ||| n == "number"@
    ||| n == "abs"@
    ||| n == "floor"@
    ||| n == "ceil"@
    ||| n == "round"@
    ||| n == "power"@
    ||| n == "sqrt"@
    ||| n == "random"@
    ||| n == "sum"@
    ||| n == "max"@
    ||| n == "min"@
    ||| n == "average"@
    ||| n == "formatBase"@
    ||| n == "formatNumber"@
    ||| n == "formatInteger"@
    ||| n == "parseInteger"@
}

/// Names of functions of arrays.
pub open spec fn array_name(n: Seq<char>) -> bool {
    ||| n == "count"@
    ||| n == "append"@
    ||| n == "reverse"@
    ||| n == "shuffle"@
    ||| n == "distinct"@
    ||| n == "flatten"@
    ||| n == "zip"@
}

/// Names of functions of objects.
pub open spec fn object_name(n: Seq<char>) -> bool {
    ||| n == "keys"@
    ||| n == "values"@
    ||| n == "spread"@
    ||| n == "merge"@
    ||| n == "lookup"@
    ||| n == "error"@
}

/// Names of functions of truth, of types and of time.
pub open spec fn other_name(n: Seq<char>) -> bool {
    ||| n == "boolean"@
    ||| n == "not"@
    ||| n == "exists"@
    ||| n == "type"@
    ||| n == "assert"@
    ||| n == "now"@
    ||| n == "millis"@
    ||| n == "fromMillis"@
    ||| n == "toMillis"@
}

/// Names of functions that ask the evaluator.
pub open spec fn aware_name(n: Seq<char>) -> bool {
    ||| n == "map"@
    ||| n == "filter"@
    ||| n == "reduce"@
    ||| n == "each"@
    ||| n == "sift"@
    ||| n == "sort"@
    ||| n == "single"@
    ||| n == "match"@
    ||| n == "replace"@
    ||| n == "eval"@
}

/// Names of functions that need only their arguments.
pub open spec fn plain_name(n: Seq<char>) -> bool {
    text_name(n) || number_name(n) || array_name(n) || object_name(n) || other_name(n)
}

proof fn lemma_text_marks()
    ensures
        mark("string"@) == 1853700352,
        mark("length"@) == 1838774016,
        mark("substring"@) == 2659021161,
        mark("substringBefore"@) == 4269633897,
        mark("substringAfter"@) == 4001198441,
        mark("uppercase"@) == 2663135329,
        mark("lowercase"@) == 2644245473,
        mark("trim"@) == 1318892672,
        mark("pad"@) == 1041789440,
        mark("contains"@) == 2356934510,
        mark("split"@) == 1585198592,
        mark("join"@) == 1297872000,
        mark("base64encode"@) == 3428350437,
        mark("base64decode"@) == 3428350436,
        mark("encodeUrl"@) == 2629546453,
        mark("encodeUrlComponent"@) == 5045465557,
        mark("decodeUrl"@) == 2627301845,
        mark("decodeUrlComponent"@) == 5043220949,
{
    reveal_strlit("string");
    reveal_strlit("length");
    reveal_strlit("substring");
    reveal_strlit("substringBefore");
    reveal_strlit("substringAfter");
    reveal_strlit("uppercase");
    reveal_strlit("lowercase");
    reveal_strlit("trim");
    reveal_strlit("pad");
    reveal_strlit("contains");
    reveal_strlit("split");
    reveal_strlit("join");
    reveal_strlit("base64encode");
    reveal_strlit("base64decode");
    reveal_strlit("encodeUrl");
    reveal_strlit("encodeUrlComponent");
    reveal_strlit("decodeUrl");
    reveal_strlit("decodeUrlComponent");
}

proof fn lemma_number_marks()
    ensures
        mark("number"@) == 1843230336,
        mark("abs"@) == 1010350464,
        mark("floor"@) == 1557870464,
        mark("ceil"@) == 1283028096,
        mark("round"@) == 1583086208,
        mark("power"@) == 1578892160,
        mark("sqrt"@) == 1316780288,
        mark("random"@) == 1851291392,
        mark("sum"@) == 1048409728,
        mark("max"@) == 1035500544,
        mark("min"@) == 1035630336,
        mark("average"@) == 2084418277,
        mark("formatBase"@) == 2900097346,
        mark("formatNumber"@) == 3436968270,
        mark("formatInteger"@) == 3705403721,
        mark("parseInteger"@) == 3457710446,
{
    reveal_strlit("number");
    reveal_strlit("abs");
    reveal_strlit("floor");
    reveal_strlit("ceil");
    reveal_strlit("round");
    reveal_strlit("power");
    reveal_strlit("sqrt");
    reveal_strlit("random");
    reveal_strlit("sum");
    reveal_strlit("max");
    reveal_strlit("min");
    reveal_strlit("average");
    reveal_strlit("formatBase");
    reveal_strlit("formatNumber");
    reveal_strlit("formatInteger");
    reveal_strlit("parseInteger");
}

proof fn lemma_array_marks()
    ensures
        mark("count"@) == 1551628928,
        mark("append"@) == 1815885824,
        mark("reverse"@) == 2119793509,
        mark("shuffle"@) == 2121939685,
        mark("distinct"@) == 2358933987,
        mark("flatten"@) == 2094739694,
        mark("zip"@) == 1062893568,
{
    reveal_strlit("count");
    reveal_strlit("append");
    reveal_strlit("reverse");
    reveal_strlit("shuffle");
    reveal_strlit("distinct");
    reveal_strlit("flatten");
    reveal_strlit("zip");
}

proof fn lemma_object_marks()
    ensures
        mark("keys"@) == 1299807360,
        mark("values"@) == 1859679744,
        mark("spread"@) == 1853634816,
        mark("merge"@) == 1572436224,
        mark("lookup"@) == 1838937984,
        mark("error"@) == 1555872000,
{
    reveal_strlit("keys");
    reveal_strlit("values");
    reveal_strlit("spread");
    reveal_strlit("merge");
    reveal_strlit("lookup");
    reveal_strlit("error");
}

proof fn lemma_other_marks()
    ensures
        mark("boolean"@) == 2086402030,
        mark("not"@) == 1037826560,
        mark("exists"@) == 1824404608,
        mark("type"@) == 1319008256,
        mark("assert"@) == 1815935360,
        mark("now"@) == 1037826944,
        mark("millis"@) == 1840936448,
        mark("fromMillis"@) == 2900146156,
        mark("toMillis"@) == 2392581865,
{
    reveal_strlit("boolean");
    reveal_strlit("not");
    reveal_strlit("exists");
    reveal_strlit("type");
    reveal_strlit("assert");
    reveal_strlit("now");
    reveal_strlit("millis");
    reveal_strlit("fromMillis");
    reveal_strlit("toMillis");
}

proof fn lemma_aware_marks()
    ensures
        mark("map"@) == 1035499520,
        mark("filter"@) == 1826256384,
        mark("reduce"@) == 1851355648,
        mark("each"@) == 1287156096,
        mark("sift"@) == 1316647680,
        mark("sort"@) == 1316747520,
        mark("single"@) == 1853519616,
        mark("match"@) == 1572370944,
        mark("replace"@) == 2119792741,
        mark("eval"@) == 1287499904,
{
    reveal_strlit("map");
    reveal_strlit("filter");
    reveal_strlit("reduce");
    reveal_strlit("each");
    reveal_strlit("sift");
    reveal_strlit("sort");
    reveal_strlit("single");
    reveal_strlit("match");
    reveal_strlit("replace");
    reveal_strlit("eval");
}

/// No name stands for functions of two sorts.
proof fn lemma_apart(n: Seq<char>)
    ensures
        text_name(n) ==> !number_name(n) && !array_name(n) && !object_name(n) && !other_name(n) && !aware_name(n),
        number_name(n) ==> !array_name(n) && !object_name(n) && !other_name(n) && !aware_name(n),
        array_name(n) ==> !object_name(n) && !other_name(n) && !aware_name(n),
        object_name(n) ==> !other_name(n) && !aware_name(n),
        other_name(n) ==> !aware_name(n),
{
    lemma_text_marks();
    lemma_number_marks();
    lemma_array_marks();
    lemma_object_marks();
    lemma_other_marks();
    lemma_aware_marks();
}

// ── What is called ───────────────────────────────────────────────────────────

/// Whether a call was answered by a value or by an error with a code.
pub open spec fn came_to(r: Option<JsonataResult>, w: Result<Val, Seq<char>>) -> bool {
    match r {
        Some(x) => out(x) == w,
        None => false,
    }
}

/// Whether an error that was the answer shows a value.
pub open spec fn shows(r: Option<JsonataResult>, v: Seq<char>) -> bool {
    match r {
        Some(Err(e)) => e.value@ == v,
        _ => true,
    }
}

/// Whether `$base64encode` answered so: by the encoding, from which the text
/// can be decoded.
pub open spec fn encodes(a: Seq<Val>, r: Option<JsonataResult>) -> bool {
    &&& came_to(r, base64_encode(a))
    &&& arg(a, 0) matches Val::String(s) ==> base64_bytes(base64_encode(a)->Ok_0->String_0) == Some(encode_utf8(s))
}

/// Whether `$power` answered so, with `raise` to raise a number to a power.
pub open spec fn raised<F: Fn(Number, Number) -> Number>(raise: F, a: Seq<Val>, r: Option<JsonataResult>) -> bool {
    match power_operands(a) {
        Err(e) => came_to(r, Err(e)),
        Ok(None) => came_to(r, Ok(Val::Undefined)),
        Ok(Some((b, e))) => match r {
            Some(x) => powered(raise, b, e, out(x)),
            None => false,
        },
    }
}

/// Whether `$random` answered so, whatever chance gave.
pub open spec fn drawn(r: Option<JsonataResult>) -> bool {
    exists|k: u64|
        k < 0x20_0000_0000_0000u64 && came_to(r, Ok(Val::Number(#[trigger] unit_fraction(k as int))))
}

/// Whether `$shuffle` answered so, whatever chance gave.
pub open spec fn mixed(a: Seq<Val>, r: Option<JsonataResult>) -> bool {
    if a.len() == 0 {
        came_to(r, Err("T0410"@))
    } else if a[0] is Undefined {
        came_to(r, Ok(Val::Undefined))
    } else {
        match r {
            Some(x) => some_shuffle(elements(a[0]), out(x)),
            None => false,
        }
    }
}

/// Whether `$error` answered so: by an error with the given sentence.
pub open spec fn refuses(a: Seq<Val>, r: Option<JsonataResult>) -> bool {
    match r {
        Some(Err(e)) => {
            &&& e.code@ == error_code(a)
            &&& a.len() > 0 && a[0] is String ==> e.message@ == a[0]->String_0
            &&& a.len() == 0 || a[0] is Undefined ==> e.message@ == "$error() function evaluated"@
        },
        _ => false,
    }
}

/// Whether `$assert` answered so, with the given sentence where it fails.
pub open spec fn asserts(a: Seq<Val>, r: Option<JsonataResult>) -> bool {
    &&& came_to(r, assertion(a))
    &&& assertion(a) == Err::<Val, Seq<char>>("D3141"@) && 1 <= a.len() <= 2 && a[0] is Bool ==> match r {
        Some(Err(e)) => e.message@ == assertion_message(a),
        _ => false,
    }
}

/// What each function of text is to answer, by its name.
pub open spec fn text_answer(name: Seq<char>, a: Seq<Val>, focus: Val, r: Option<JsonataResult>) -> bool {
    &&& name == "string"@ ==> came_to(r, string(a, focus))
    &&& name == "length"@ ==> came_to(r, length(a, focus))
    &&& name == "substring"@ ==> came_to(r, substring(a))
    &&& name == "substringBefore"@ ==> came_to(r, substring_before(a, focus))
    &&& name == "substringAfter"@ ==> came_to(r, substring_after(a, focus))
    &&& name == "uppercase"@ ==> came_to(r, upper(a, focus))
    &&& name == "lowercase"@ ==> came_to(r, lower(a, focus))
    &&& name == "trim"@ ==> came_to(r, trim_spec(a, focus))
    &&& name == "pad"@ ==> came_to(r, pad(a))
    &&& name == "contains"@ ==> came_to(r, contains(a, focus))
    &&& name == "split"@ ==> came_to(r, split(a))
    &&& name == "join"@ ==> came_to(r, join(a))
    &&& name == "base64encode"@ ==> encodes(a, r)
    &&& name == "base64decode"@ ==> came_to(r, base64_decode(a))
    &&& name == "encodeUrl"@ ==> came_to(r, encode_url(a))
    &&& name == "encodeUrlComponent"@ ==> came_to(r, encode_url_component(a))
    &&& name == "decodeUrl"@ ==> came_to(r, decode_url(a))
    &&& name == "decodeUrlComponent"@ ==> came_to(r, decode_url(a))
}

/// Other names say nothing of an answer.
proof fn lemma_text_silent(name: Seq<char>, a: Seq<Val>, focus: Val, r: Option<JsonataResult>)
    requires
        !text_name(name),
    ensures
        text_answer(name, a, focus, r),
{
}

fn call_text(name: &[char], args: &[Value], focus: &Value) -> (r: Option<JsonataResult>)
    requires
        name@ == "base64encode"@ ==> fits_base64(vals(args@)),
    ensures
        text_answer(name@, vals(args@), focus@, r),
        r is Some <==> text_name(name@),
{
    proof {
        lemma_text_marks();
    }
    if is_text(name, "string") {
        Some(fn_string(args, focus))
    } else if is_text(name, "length") {
        Some(fn_length(args, focus))
    } else if is_text(name, "substring") {
        Some(fn_substring(args, focus))
    } else if is_text(name, "substringBefore") {
        Some(fn_substring_before(args, focus))
    } else if is_text(name, "substringAfter") {
        Some(fn_substring_after(args, focus))
    } else if is_text(name, "uppercase") {
        Some(fn_uppercase(args, focus))
    } else if is_text(name, "lowercase") {
        Some(fn_lowercase(args, focus))
    } else if is_text(name, "trim") {
        Some(fn_trim(args, focus))
    } else if is_text(name, "pad") {
        Some(fn_pad(args, focus))
    } else if is_text(name, "contains") {
        Some(fn_contains(args, focus))
    } else if is_text(name, "split") {
        Some(fn_split(args, focus))
    } else if is_text(name, "join") {
        Some(fn_join(args, focus))
    } else if is_text(name, "base64encode") {
        Some(fn_base64_encode(args, focus))
    } else if is_text(name, "base64decode") {
        Some(fn_base64_decode(args, focus))
    } else if is_text(name, "encodeUrl") {
        Some(fn_encode_url(args, focus))
    } else if is_text(name, "encodeUrlComponent") {
        Some(fn_encode_url_component(args, focus))
    } else if is_text(name, "decodeUrl") {
        Some(fn_decode_url(args, focus))
    } else if is_text(name, "decodeUrlComponent") {
        Some(fn_decode_url_component(args, focus))
    } else {
        None
    }
}

/// What each function of numbers is to answer, by its name.
pub open spec fn number_answer<F: Fn(Number, Number) -> Number>(raise: F, name: Seq<char>, a: Seq<Val>, focus: Val, r: Option<JsonataResult>) -> bool {
    &&& name == "number"@ ==> came_to(r, number_result(a, focus))
    &&& name == "abs"@ ==> came_to(r, abs_result(a))
    &&& name == "floor"@ ==> came_to(r, floor_result(a))
    &&& name == "ceil"@ ==> came_to(r, ceil_result(a))
    &&& name == "round"@ ==> came_to(r, round_result(a))
    &&& name == "power"@ ==> raised(raise, a, r)
    &&& name == "sqrt"@ ==> came_to(r, sqrt_result(a))
    &&& name == "random"@ ==> drawn(r)
    &&& name == "sum"@ ==> came_to(r, sum_result(a))
    &&& name == "max"@ ==> came_to(r, max_result(a))
    &&& name == "min"@ ==> came_to(r, min_result(a))
    &&& name == "average"@ ==> came_to(r, average_result(a))
    &&& name == "formatBase"@ ==> came_to(r, format_base(a))
    &&& name == "formatNumber"@ ==> came_to(r, format_number(a))
    &&& name == "formatInteger"@ ==> came_to(r, format_integer(a))
    &&& name == "parseInteger"@ ==> came_to(r, parse_integer(a))
}

/// Other names say nothing of an answer.
proof fn lemma_number_silent<F: Fn(Number, Number) -> Number>(raise: F, name: Seq<char>, a: Seq<Val>, focus: Val, r: Option<JsonataResult>)
    requires
        !number_name(name),
    ensures
        number_answer(raise, name, a, focus, r),
{
}

fn call_number<F: Fn(Number, Number) -> Number>(name: &[char], args: &[Value], focus: &Value, raise: F) -> (r: Option<JsonataResult>)
    requires
        forall|b: Number, e: Number| #[trigger] raise.requires((b, e)),
    ensures
        number_answer(raise, name@, vals(args@), focus@, r),
        r is Some <==> number_name(name@),
{
    proof {
        lemma_number_marks();
    }
    if is_text(name, "number") {
        Some(fn_number(args, focus))
    } else if is_text(name, "abs") {
        Some(fn_abs(args, focus))
    } else if is_text(name, "floor") {
        Some(fn_floor(args, focus))
    } else if is_text(name, "ceil") {
        Some(fn_ceil(args, focus))
    } else if is_text(name, "round") {
        Some(fn_round(args, focus))
    } else if is_text(name, "power") {
        Some(fn_power(args, focus, raise))
    } else if is_text(name, "sqrt") {
        Some(fn_sqrt(args, focus))
    } else if is_text(name, "random") {
        Some(fn_random(args, focus))
    } else if is_text(name, "sum") {
        Some(fn_sum(args, focus))
    } else if is_text(name, "max") {
        Some(fn_max(args, focus))
    } else if is_text(name, "min") {
        Some(fn_min(args, focus))
    } else if is_text(name, "average") {
        Some(fn_average(args, focus))
    } else if is_text(name, "formatBase") {
        Some(fn_format_base(args, focus))
    } else if is_text(name, "formatNumber") {
        Some(fn_format_number(args, focus))
    } else if is_text(name, "formatInteger") {
        Some(fn_format_integer(args, focus))
    } else if is_text(name, "parseInteger") {
        Some(fn_parse_integer(args, focus))
    } else {
        None
    }
}

/// What each function of arrays is to answer, by its name.
pub open spec fn array_answer(name: Seq<char>, a: Seq<Val>, r: Option<JsonataResult>) -> bool {
    &&& name == "count"@ ==> came_to(r, count(a))
    &&& name == "append"@ ==> came_to(r, append(a))
    &&& name == "reverse"@ ==> came_to(r, reverse(a))
    &&& name == "shuffle"@ ==> mixed(a, r)
    &&& name == "distinct"@ ==> came_to(r, distinct(a))
    &&& name == "flatten"@ ==> came_to(r, flatten(a))
    &&& name == "zip"@ ==> came_to(r, zip(a))
}

/// Other names say nothing of an answer.
proof fn lemma_array_silent(name: Seq<char>, a: Seq<Val>, r: Option<JsonataResult>)
    requires
        !array_name(name),
    ensures
        array_answer(name, a, r),
{
}

fn call_array(name: &[char], args: &[Value], focus: &Value) -> (r: Option<JsonataResult>)
    ensures
        array_answer(name@, vals(args@), r),
        r is Some <==> array_name(name@),
{
    proof {
        lemma_array_marks();
    }
    if is_text(name, "count") {
        Some(fn_count(args, focus))
    } else if is_text(name, "append") {
        Some(fn_append(args, focus))
    } else if is_text(name, "reverse") {
        Some(fn_reverse(args, focus))
    } else if is_text(name, "shuffle") {
        Some(fn_shuffle(args, focus))
    } else if is_text(name, "distinct") {
        Some(fn_distinct(args, focus))
    } else if is_text(name, "flatten") {
        Some(fn_flatten(args, focus))
    } else if is_text(name, "zip") {
        Some(fn_zip(args, focus))
    } else {
        None
    }
}

/// What each function of objects is to answer, by its name.
pub open spec fn object_answer(name: Seq<char>, a: Seq<Val>, r: Option<JsonataResult>) -> bool {
    &&& name == "keys"@ ==> came_to(r, keys(a))
    &&& name == "values"@ ==> came_to(r, values(a))
    &&& name == "spread"@ ==> came_to(r, spread(a))
    &&& name == "merge"@ ==> came_to(r, merge(a))
    &&& name == "lookup"@ ==> came_to(r, lookup(a))
    &&& name == "error"@ ==> refuses(a, r)
}

/// Other names say nothing of an answer.
proof fn lemma_object_silent(name: Seq<char>, a: Seq<Val>, r: Option<JsonataResult>)
    requires
        !object_name(name),
    ensures
        object_answer(name, a, r),
{
}

fn call_object(name: &[char], args: &[Value], focus: &Value) -> (r: Option<JsonataResult>)
    ensures
        object_answer(name@, vals(args@), r),
        r is Some <==> object_name(name@),
{
    proof {
        lemma_object_marks();
    }
    if is_text(name, "keys") {
        Some(fn_keys(args, focus))
    } else if is_text(name, "values") {
        Some(fn_values(args, focus))
    } else if is_text(name, "spread") {
        Some(fn_spread(args, focus))
    } else if is_text(name, "merge") {
        Some(fn_merge(args, focus))
    } else if is_text(name, "lookup") {
        Some(fn_lookup(args, focus))
    } else if is_text(name, "error") {
        Some(fn_error(args, focus))
    } else {
        None
    }
}

/// What each function of truth, of types and of time is to answer, by its name.
pub open spec fn other_answer(name: Seq<char>, a: Seq<Val>, focus: Val, r: Option<JsonataResult>) -> bool {
    &&& name == "boolean"@ ==> came_to(r, boolean(a, focus)) && shows(
        r,
        untrue(
            if a.len() == 0 {
                focus
            } else {
                a[0]
            },
        ),
    )
    &&& name == "not"@ ==> came_to(r, not(a)) && (a.len() > 0 ==> shows(r, untrue(a[0])))
    &&& name == "exists"@ ==> came_to(r, exists_spec(a))
    &&& name == "type"@ ==> came_to(r, type_of(a)) && (a.len() > 0 ==> shows(r, number_text(a[0]->Number_0)))
    &&& name == "assert"@ ==> asserts(a, r)
    &&& name == "now"@ ==> (exists|now: i64| came_to(r, #[trigger] now_result(a, now as int)))
    &&& name == "millis"@ ==> (exists|now: i64| came_to(r, #[trigger] millis_result(now as int)))
    &&& name == "fromMillis"@ ==> came_to(r, from_millis(a, focus))
    &&& name == "toMillis"@ ==> (exists|now: i64| came_to(r, #[trigger] to_millis(a, now as int)))
}

/// Other names say nothing of an answer.
proof fn lemma_other_silent(name: Seq<char>, a: Seq<Val>, focus: Val, r: Option<JsonataResult>)
    requires
        !other_name(name),
    ensures
        other_answer(name, a, focus, r),
{
}

fn call_other(name: &[char], args: &[Value], focus: &Value) -> (r: Option<JsonataResult>)
    ensures
        other_answer(name@, vals(args@), focus@, r),
        r is Some <==> other_name(name@),
{
    proof {
        lemma_other_marks();
    }
    if is_text(name, "boolean") {
        Some(fn_boolean(args, focus))
    } else if is_text(name, "not") {
        Some(fn_not(args, focus))
    } else if is_text(name, "exists") {
        Some(fn_exists(args, focus))
    } else if is_text(name, "type") {
        Some(fn_type_of(args, focus))
    } else if is_text(name, "assert") {
        Some(fn_assert(args, focus))
    } else if is_text(name, "now") {
        Some(fn_now(args, focus))
    } else if is_text(name, "millis") {
        Some(fn_millis(args, focus))
    } else if is_text(name, "fromMillis") {
        Some(fn_from_millis(args, focus))
    } else if is_text(name, "toMillis") {
        Some(fn_to_millis(args, focus))
    } else {
        None
    }
}

/// Call a function of the standard library that needs only its arguments, by
/// its name. `raise` raises a number to a power. Another name calls nothing.
pub fn call_standard<F: Fn(Number, Number) -> Number>(
    name: &str,
    args: &[Value],
    focus: &Value,
    raise: F,
) -> (r: Option<JsonataResult>)
    requires
        forall|b: Number, e: Number| #[trigger] raise.requires((b, e)),
        name@ == "base64encode"@ ==> fits_base64(vals(args@)),
    ensures
        r is Some <==> plain_name(name@),
        text_answer(name@, vals(args@), focus@, r),
        number_answer(raise, name@, vals(args@), focus@, r),
        array_answer(name@, vals(args@), r),
        object_answer(name@, vals(args@), r),
        other_answer(name@, vals(args@), focus@, r),
{
    let n = chars_of(name);
    let n = n.as_slice();
    let ghost a = vals(args@);
    proof {
        lemma_apart(name@);
    }
    let r = match call_text(n, args, focus) {
        Some(r) => Some(r),
        None => match call_number(n, args, focus, raise) {
            Some(r) => Some(r),
            None => match call_array(n, args, focus) {
                Some(r) => Some(r),
                None => match call_object(n, args, focus) {
                    Some(r) => Some(r),
                    None => call_other(n, args, focus),
                },
            },
        },
    };
    proof {
        if !text_name(name@) {
            lemma_text_silent(name@, a, focus@, r);
        }
        if !number_name(name@) {
            lemma_number_silent(raise, name@, a, focus@, r);
        }
        if !array_name(name@) {
            lemma_array_silent(name@, a, r);
        }
        if !object_name(name@) {
            lemma_object_silent(name@, a, r);
        }
        if !other_name(name@) {
            lemma_other_silent(name@, a, focus@, r);
        }
    }
    r
}

// ── What asks the evaluator ──────────────────────────────────────────────────

/// Whether `$map` may answer so.
pub open spec fn maps<
    C: Fn(&FunctionValue, &Vec<Value>, &Value, Option<usize>) -> JsonataResult,
    P: Fn(usize) -> Result<(), JsonataError>,
    L: Fn(usize, &str) -> Option<Value>,
>(nodes: Seq<Node>, a: Seq<Val>, call: C, poll: P, lookup: L, w: Result<Val, Seq<char>>) -> bool {
    match items_and_function(a) {
        Err(e) => w == Err::<Val, Seq<char>>(e),
        Ok(None) => w == Ok::<Val, Seq<char>>(Val::Undefined),
        Ok(Some((items, func))) => map_ends(nodes, items, func, call, poll, lookup, w),
    }
}

/// Whether `$filter` may answer so.
pub open spec fn filters<
    C: Fn(&FunctionValue, &Vec<Value>, &Value, Option<usize>) -> JsonataResult,
    P: Fn(usize) -> Result<(), JsonataError>,
>(nodes: Seq<Node>, a: Seq<Val>, call: C, poll: P, w: Result<Val, Seq<char>>) -> bool {
    match items_and_function(a) {
        Err(e) => w == Err::<Val, Seq<char>>(e),
        Ok(None) => w == Ok::<Val, Seq<char>>(Val::Undefined),
        Ok(Some((items, func))) => filter_course(items, func, filter_way(nodes, func)).ends(call, poll, w),
    }
}

/// Whether `$single` may answer so.
pub open spec fn singles<
    C: Fn(&FunctionValue, &Vec<Value>, &Value, Option<usize>) -> JsonataResult,
    P: Fn(usize) -> Result<(), JsonataError>,
>(nodes: Seq<Node>, a: Seq<Val>, call: C, poll: P, w: Result<Val, Seq<char>>) -> bool {
    if a.len() == 0 {
        w == Err::<Val, Seq<char>>("T0410"@)
    } else if a[0] is Undefined {
        w == Ok::<Val, Seq<char>>(Val::Undefined)
    } else if a.len() == 1 {
        w == only_one(items_of(a[0]))
    } else {
        match a[1] {
            Val::Function(f) => single_course(items_of(a[0]), f, single_way(nodes, f)).ends(call, poll, w),
            _ => w == Err::<Val, Seq<char>>("T0410"@),
        }
    }
}

/// Whether `$reduce` may answer so.
pub open spec fn reduces<
    C: Fn(&FunctionValue, &Vec<Value>, &Value, Option<usize>) -> JsonataResult,
    P: Fn(usize) -> Result<(), JsonataError>,
>(nodes: Seq<Node>, a: Seq<Val>, call: C, poll: P, w: Result<Val, Seq<char>>) -> bool {
    match items_and_function(a) {
        Err(e) => w == Err::<Val, Seq<char>>(e),
        Ok(None) => w == Ok::<Val, Seq<char>>(Val::Undefined),
        Ok(Some((items, func))) => {
            let way = reduce_way(nodes, func);
            if too_narrow(func) {
                w == Err::<Val, Seq<char>>("D3050"@)
            } else if items.len() == 0 {
                w == Ok::<Val, Seq<char>>(arg(a, 2))
            } else if a.len() > 2 {
                reduce_course(items, func, way, 0, a[2]).ends(call, poll, w)
            } else {
                reduce_course(items, func, way, 1, items[0]).ends(call, poll, w)
            }
        },
    }
}

/// Whether `$each` may answer so.
pub open spec fn visits<
    C: Fn(&FunctionValue, &Vec<Value>, &Value, Option<usize>) -> JsonataResult,
    P: Fn(usize) -> Result<(), JsonataError>,
>(a: Seq<Val>, focus: Val, call: C, poll: P, w: Result<Val, Seq<char>>) -> bool {
    match each_args(a, focus) {
        Err(e) => w == Err::<Val, Seq<char>>(e),
        Ok((obj, func, from_focus)) => match (obj, func) {
            (Val::Undefined, _) => w == Ok::<Val, Seq<char>>(Val::Undefined),
            (Val::Object(o), Val::Function(f)) => each_course(o, f).ends(call, poll, w),
            (Val::Object(_), _) => w == Err::<Val, Seq<char>>("T0410"@),
            _ => w == Err::<Val, Seq<char>>(context_code(from_focus)),
        },
    }
}

/// Whether `$sift` may answer so.
pub open spec fn sifts<
    C: Fn(&FunctionValue, &Vec<Value>, &Value, Option<usize>) -> JsonataResult,
    P: Fn(usize) -> Result<(), JsonataError>,
>(a: Seq<Val>, focus: Val, call: C, poll: P, w: Result<Val, Seq<char>>) -> bool {
    match sift_args(a, focus) {
        Err(e) => w == Err::<Val, Seq<char>>(e),
        Ok((obj, func, from_focus)) => match (obj, func) {
            (Val::Undefined, _) => w == Ok::<Val, Seq<char>>(Val::Undefined),
            (Val::Object(o), Val::Function(f)) => sift_course(o, f).ends(call, poll, w),
            (_, Val::Function(_)) => w == Err::<Val, Seq<char>>(context_code(from_focus)),
            _ => w == Err::<Val, Seq<char>>("T0410"@),
        },
    }
}

/// Whether `$sort` may answer so.
pub open spec fn sorts<C: Fn(&FunctionValue, &Vec<Value>, &Value, Option<usize>) -> JsonataResult>(
    nodes: Seq<Node>,
    a: Seq<Val>,
    focus: Val,
    call: C,
    w: Result<Val, Seq<char>>,
) -> bool {
    match sort_args(a, focus) {
        Err(e) => w == Err::<Val, Seq<char>>(e),
        Ok((v, func)) => if v is Undefined {
            w == Ok::<Val, Seq<char>>(Val::Undefined)
        } else if items_of(v).len() <= 1 {
            w == Ok::<Val, Seq<char>>(Val::Array(items_of(v)))
        } else {
            may_sort(sort_way(nodes, func), &call, items_of(v), w)
        },
    }
}

/// Whether `$match` may answer so.
pub open spec fn matches_come<
    C: Fn(&FunctionValue, &Vec<Value>, &Value, Option<usize>) -> JsonataResult,
    P: Fn(usize) -> Result<(), JsonataError>,
>(a: Seq<Val>, call: C, poll: P, w: Result<Val, Seq<char>>) -> bool {
    if a.len() >= 2 && a[1] is Function {
        match match_subject(a) {
            Err(e) => w == Err::<Val, Seq<char>>(e),
            Ok(None) => w == Ok::<Val, Seq<char>>(Val::Undefined),
            Ok(Some((s, limit))) => match_course(s, a[1]->Function_0, limit).ends(call, poll, w),
        }
    } else {
        w == matched(a)
    }
}

/// Whether `$replace` may answer so.
pub open spec fn replaces<
    C: Fn(&FunctionValue, &Vec<Value>, &Value, Option<usize>) -> JsonataResult,
    P: Fn(usize) -> Result<(), JsonataError>,
>(a: Seq<Val>, call: C, poll: P, w: Result<Val, Seq<char>>) -> bool {
    if replaces_by_function(a) {
        let (s, limit) = (replace_subject(a)->Ok_0)->0;
        let source = regex_of(a[1])->Ok_0;
        replace_course(s, regex_captures(source, s), a[2]->Function_0, limit).ends(call, poll, w)
    } else {
        w == replace(a)
    }
}

/// Whether `$eval` may answer so.
pub open spec fn evals<
    N: Fn(u32) -> Result<(), JsonataError>,
    R: Fn(&Expression, &Value) -> JsonataResult,
>(a: Seq<Val>, focus: Val, reads: Readings, enter: N, run: R, x: JsonataResult) -> bool {
    if a.len() == 0 {
        out(x) == Err::<Val, Seq<char>>("D3006"@)
    } else {
        match a[0] {
            Val::Undefined => out(x) == Ok::<Val, Seq<char>>(Val::Undefined),
            Val::String(src) => may_give(enter, run, src, reads, eval_context(a, focus), told(x)),
            _ => out(x) == Err::<Val, Seq<char>>("T0410"@),
        }
    }
}

/// What each function that asks the evaluator may answer, by its name.
pub open spec fn aware_answer<
    C: Fn(&FunctionValue, &Vec<Value>, &Value, Option<usize>) -> JsonataResult,
    P: Fn(usize) -> Result<(), JsonataError>,
    L: Fn(usize, &str) -> Option<Value>,
    N: Fn(u32) -> Result<(), JsonataError>,
    R: Fn(&Expression, &Value) -> JsonataResult,
>(
    name: Seq<char>,
    a: Seq<Val>,
    focus: Val,
    nodes: Seq<Node>,
    call: C,
    poll: P,
    lookup: L,
    reads: Readings,
    enter: N,
    run: R,
    r: Option<JsonataResult>,
) -> bool {
    match r {
        None => !aware_name(name),
        Some(x) => {
            let w = out(x);
            &&& aware_name(name)
            &&& name == "map"@ ==> maps(nodes, a, call, poll, lookup, w)
            &&& name == "filter"@ ==> filters(nodes, a, call, poll, w)
            &&& name == "reduce"@ ==> reduces(nodes, a, call, poll, w)
            &&& name == "each"@ ==> visits(a, focus, call, poll, w)
            &&& name == "sift"@ ==> sifts(a, focus, call, poll, w)
            &&& name == "sort"@ ==> sorts(nodes, a, focus, call, w)
            &&& name == "single"@ ==> singles(nodes, a, call, poll, w)
            &&& name == "match"@ ==> matches_come(a, call, poll, w)
            &&& name == "replace"@ ==> replaces(a, call, poll, w)
            &&& name == "eval"@ ==> evals(a, focus, reads, enter, run, x)
        },
    }
}

/// Call a function of the standard library that asks the evaluator, by its
/// name: to call a function, to say whether to go on, to look a name up, to read
/// the inside of signatures, and to enter, run and leave a nested evaluation. Another name calls nothing.
pub fn call_aware<
    C: Fn(&FunctionValue, &Vec<Value>, &Value, Option<usize>) -> JsonataResult,
    P: Fn(usize) -> Result<(), JsonataError>,
    L: Fn(usize, &str) -> Option<Value>,
    G: Fn(&str) -> Result<usize, JsonataError>,
    N: Fn(u32) -> Result<(), JsonataError>,
    R: Fn(&Expression, &Value) -> JsonataResult,
    V: Fn() -> (),
>(
    name: &str,
    args: &[Value],
    focus: &Value,
    arena: &AstArena,
    call: &C,
    poll: &P,
    lookup: &L,
    read: &G,
    enter: &N,
    run: &R,
    leave: &V,
) -> (r: Option<JsonataResult>)
    requires
        open_to_all(*call, *poll),
        forall|s: usize, n: &str| #[trigger] lookup.requires((s, n)),
        readable(*read),
        forall|d: u32| #[trigger] enter.requires((d,)),
        forall|e: &Expression, c: &Value| #[trigger] run.requires((e, c)),
        leave.requires(()),
    ensures
        r is Some <==> aware_name(name@),
        aware_answer(name@, vals(args@), focus@, arena.all(), *call, *poll, *lookup, readings(*read), *enter, *run, r),
{
    let n = chars_of(name);
    let n = n.as_slice();
    proof {
        lemma_aware_marks();
    }
    if is_text(n, "map") {
        Some(fn_map(args, focus, arena, call, poll, lookup))
    } else if is_text(n, "filter") {
        Some(fn_filter(args, focus, arena, call, poll))
    } else if is_text(n, "reduce") {
        Some(fn_reduce(args, focus, arena, call, poll))
    } else if is_text(n, "each") {
        Some(fn_each(args, focus, call, poll))
    } else if is_text(n, "sift") {
        Some(fn_sift(args, focus, call, poll))
    } else if is_text(n, "sort") {
        Some(fn_sort(args, focus, arena, call))
    } else if is_text(n, "single") {
        Some(fn_single(args, focus, arena, call, poll))
    } else if is_text(n, "match") {
        Some(fn_match(args, focus, call, poll))
    } else if is_text(n, "replace") {
        Some(fn_replace(args, focus, call, poll))
    } else if is_text(n, "eval") {
        Some(fn_eval(args, focus, read, enter, run, leave))
    } else {
        None
    }
}

// ── The table ────────────────────────────────────────────────────────────────

/// Every function that is bound is one that is called by its name: one that is
/// bound to ask the evaluator by [`call_aware`], every other one by
/// [`call_standard`].
pub proof fn law_bound_functions_are_called(i: int)
    requires
        0 <= i < standard_library().len(),
    ensures
        match standard_library()[i].func {
            Fun::EnvAwareBuiltin(Code::Standard(n)) => n == standard_library()[i].name && aware_name(n)
                && !plain_name(n),
            Fun::Builtin(Code::Standard(n)) => n == standard_library()[i].name && plain_name(n) && !aware_name(n),
            Fun::SignedBuiltin { func: Code::Standard(n), .. } => n == standard_library()[i].name && plain_name(n)
                && !aware_name(n),
            _ => false,
        },
{
    lemma_apart(standard_library()[i].name);
}

} // verus!
