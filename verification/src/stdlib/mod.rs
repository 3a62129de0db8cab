//! The standard library of built-in functions.
use vstd::prelude::*;

use crate::environment::{bound, found_in, Env, Environment};
use crate::text::{chars_of, is_text};
use crate::value::{law_insert_then_get, Callable, Code, Fun, FunctionValue, Val, Value};

pub mod args;
pub mod array;
pub mod body_laws;
pub mod boolean;
pub mod collection_laws;
pub mod datetime;
pub mod dispatch;
pub mod encoding;
pub mod eval_fn;
pub mod format_integer;
pub mod format_number;
pub mod hof;
pub mod hof_fast;
pub mod hof_laws;
pub mod host;
pub mod integer_laws;
pub mod number_laws;
pub mod number_words;
pub mod numeric;
pub mod object;
pub mod object_laws;
pub mod parse_integer;
pub mod picture_laws;
pub mod regex;
pub mod regex_cache;
pub mod rounding_laws;
pub mod string_funcs;
pub mod trim_laws;
pub mod types;
pub mod whole_rounding_laws;
pub mod word_laws;

verus! {

// ── The table ────────────────────────────────────────────────────────────────

/// A built-in function under its name.
pub struct Named {
    pub name: Seq<char>,
    pub func: Fun,
}

/// A function that needs only its arguments.
pub open spec fn plain(name: Seq<char>) -> Named {
    Named { name, func: Fun::Builtin(Code::Standard(name)) }
}

/// A function that needs only its arguments, which are checked first.
pub open spec fn signed(name: Seq<char>, signature: Seq<char>) -> Named {
    Named { name, func: Fun::SignedBuiltin { func: Code::Standard(name), signature } }
}

/// A function that asks the evaluator.
pub open spec fn aware(name: Seq<char>) -> Named {
    Named { name, func: Fun::EnvAwareBuiltin(Code::Standard(name)) }
}

/// The functions of the standard library.
pub open spec fn standard_library() -> Seq<Named> {
    seq![
        // String
        signed("string"@, "x?b?"@),
        plain("length"@),
        plain("substring"@),
        plain("substringBefore"@),
        plain("substringAfter"@),
        signed("uppercase"@, "s?"@),
        signed("lowercase"@, "s?"@),
        plain("trim"@),
        plain("pad"@),
        plain("contains"@),
        plain("split"@),
        plain("join"@),
        plain("base64encode"@),
        plain("base64decode"@),
        plain("encodeUrl"@),
        plain("encodeUrlComponent"@),
        plain("decodeUrl"@),
        plain("decodeUrlComponent"@),
        // Numeric
        plain("number"@),
        plain("abs"@),
        plain("floor"@),
        plain("ceil"@),
        plain("round"@),
        plain("power"@),
        plain("sqrt"@),
        plain("random"@),
        signed("sum"@, "a<n>"@),
        signed("max"@, "a<n>"@),
        signed("min"@, "a<n>"@),
        signed("average"@, "a<n>"@),
        plain("formatBase"@),
        plain("formatNumber"@),
        plain("formatInteger"@),
        plain("parseInteger"@),
        // Array
        plain("count"@),
        plain("append"@),
        plain("reverse"@),
        plain("shuffle"@),
        plain("distinct"@),
        plain("flatten"@),
        plain("zip"@),
        // Object
        plain("keys"@),
        plain("values"@),
        plain("spread"@),
        plain("merge"@),
        plain("lookup"@),
        plain("error"@),
        // Boolean
        signed("boolean"@, "x?"@),
        plain("not"@),
        plain("exists"@),
        // Type
        plain("type"@),
        plain("assert"@),
        // Higher-order
        aware("map"@),
        aware("filter"@),
        aware("reduce"@),
        aware("each"@),
        aware("sift"@),
        aware("sort"@),
        aware("single"@),
        // Patterns and evaluation
        aware("match"@),
        aware("replace"@),
        aware("eval"@),
        // Date and time
        plain("now"@),
        plain("millis"@),
        plain("fromMillis"@),
        plain("toMillis"@),
    ]
}

/// An environment with functions bound, one after the other.
pub open spec fn with_functions(e: Env, table: Seq<Named>) -> Env
    decreases table.len(),
{
    if table.len() == 0 {
        e
    } else {
        bound(with_functions(e, table.drop_last()), table.last().name, Val::Function(table.last().func))
    }
}

/// One more function bound.
proof fn lemma_one_more(e: Env, table: Seq<Named>, f: Named)
    ensures
        with_functions(e, table.push(f)) == bound(with_functions(e, table), f.name, Val::Function(f.func)),
{
    assert(table.push(f).drop_last() =~= table);
}

fn bind_builtin(env: &mut Environment, name: &str)
    ensures
        final(env)@ == bound(old(env)@, name@, Val::Function(plain(name@).func)),
{
    env.bind(name, Value::Function(FunctionValue::Builtin(Callable::Standard(name.to_owned()))));
}

fn bind_signed_builtin(env: &mut Environment, name: &str, signature: &str)
    ensures
        final(env)@ == bound(old(env)@, name@, Val::Function(signed(name@, signature@).func)),
{
    env.bind(
        name,
        Value::Function(
            FunctionValue::SignedBuiltin {
                func: Callable::Standard(name.to_owned()),
                signature: signature.to_owned(),
            },
        ),
    );
}

fn bind_env_builtin(env: &mut Environment, name: &str)
    ensures
        final(env)@ == bound(old(env)@, name@, Val::Function(aware(name@).func)),
{
    env.bind(name, Value::Function(FunctionValue::EnvAwareBuiltin(Callable::Standard(name.to_owned()))));
}

/// How a function is called.
enum Kind {
    Plain,
    Signed(&'static str),
    Aware,
}

/// A line of the table.
struct Listing {
    name: &'static str,
    kind: Kind,
}

spec fn line(l: Listing) -> Named {
    match l.kind {
        Kind::Plain => plain(l.name@),
        Kind::Signed(signature) => signed(l.name@, signature@),
        Kind::Aware => aware(l.name@),
    }
}

spec fn lines(s: Seq<Listing>) -> Seq<Named> {
    s.map_values(|l: Listing| line(l))
}

fn listing(name: &'static str, kind: Kind) -> (r: Listing)
    ensures
        r == (Listing { name, kind }),
{
    Listing { name, kind }
}

fn listings() -> (r: Vec<Listing>)
    ensures
        lines(r@) == standard_library(),
{
    let r = vec![
        // String
        listing("string", Kind::Signed("x?b?")),
        listing("length", Kind::Plain),
        listing("substring", Kind::Plain),
        listing("substringBefore", Kind::Plain),
        listing("substringAfter", Kind::Plain),
        listing("uppercase", Kind::Signed("s?")),
        listing("lowercase", Kind::Signed("s?")),
        listing("trim", Kind::Plain),
        listing("pad", Kind::Plain),
        listing("contains", Kind::Plain),
        listing("split", Kind::Plain),
        listing("join", Kind::Plain),
        listing("base64encode", Kind::Plain),
        listing("base64decode", Kind::Plain),
        listing("encodeUrl", Kind::Plain),
        listing("encodeUrlComponent", Kind::Plain),
        listing("decodeUrl", Kind::Plain),
        listing("decodeUrlComponent", Kind::Plain),
        // Numeric
        listing("number", Kind::Plain),
        listing("abs", Kind::Plain),
        listing("floor", Kind::Plain),
        listing("ceil", Kind::Plain),
        listing("round", Kind::Plain),
        listing("power", Kind::Plain),
        listing("sqrt", Kind::Plain),
        listing("random", Kind::Plain),
        listing("sum", Kind::Signed("a<n>")),
        listing("max", Kind::Signed("a<n>")),
        listing("min", Kind::Signed("a<n>")),
        listing("average", Kind::Signed("a<n>")),
        listing("formatBase", Kind::Plain),
        listing("formatNumber", Kind::Plain),
        listing("formatInteger", Kind::Plain),
        listing("parseInteger", Kind::Plain),
        // Array
        listing("count", Kind::Plain),
        listing("append", Kind::Plain),
        listing("reverse", Kind::Plain),
        listing("shuffle", Kind::Plain),
        listing("distinct", Kind::Plain),
        listing("flatten", Kind::Plain),
        listing("zip", Kind::Plain),
        // Object
        listing("keys", Kind::Plain),
        listing("values", Kind::Plain),
        listing("spread", Kind::Plain),
        listing("merge", Kind::Plain),
        listing("lookup", Kind::Plain),
        listing("error", Kind::Plain),
        // Boolean
        listing("boolean", Kind::Signed("x?")),
        listing("not", Kind::Plain),
        listing("exists", Kind::Plain),
        // Type
        listing("type", Kind::Plain),
        listing("assert", Kind::Plain),
        // Higher-order
        listing("map", Kind::Aware),
        listing("filter", Kind::Aware),
        listing("reduce", Kind::Aware),
        listing("each", Kind::Aware),
        listing("sift", Kind::Aware),
        listing("sort", Kind::Aware),
        listing("single", Kind::Aware),
        // Patterns and evaluation
        listing("match", Kind::Aware),
        listing("replace", Kind::Aware),
        listing("eval", Kind::Aware),
        // Date and time
        listing("now", Kind::Plain),
        listing("millis", Kind::Plain),
        listing("fromMillis", Kind::Plain),
        listing("toMillis", Kind::Plain),
    ];
    assert(lines(r@) =~= standard_library());
    r
}

/// Bind all functions of the standard library.
pub fn register_all(env: &mut Environment)
    ensures
        final(env)@ == with_functions(old(env)@, standard_library()),
{
    let table = listings();
    let ghost all = standard_library();
    let ghost before = env@;
    let mut i: usize = 0;
    assert(all.take(0) =~= Seq::empty());
    while i < table.len()
        invariant
            i <= table.len(),
            lines(table@) == all,
            env@ == with_functions(before, all.take(i as int)),
        decreases table.len() - i,
    {
        proof {
            assert(all[i as int] == line(table@[i as int]));
            assert(all.take(i + 1) =~= all.take(i as int).push(all[i as int]));
            lemma_one_more(before, all.take(i as int), all[i as int]);
        }
        match table[i].kind {
            Kind::Plain => {
                bind_builtin(env, table[i].name);
            },
            Kind::Signed(signature) => {
                bind_signed_builtin(env, table[i].name, signature);
            },
            Kind::Aware => {
                bind_env_builtin(env, table[i].name);
            },
        }
        i = i + 1;
    }
    assert(all.take(i as int) =~= all);
}

/// The function that a table has under a name: the last one.
pub open spec fn listed(table: Seq<Named>, name: Seq<char>) -> Option<Fun>
    decreases table.len(),
{
    if table.len() == 0 {
        None
    } else if table.last().name == name {
        Some(table.last().func)
    } else {
        listed(table.drop_last(), name)
    }
}

/// After functions were bound each of their names leads to its function, and
/// every other name to what it led to before.
pub proof fn law_functions_are_found(e: Env, table: Seq<Named>, name: Seq<char>)
    ensures
        found_in(with_functions(e, table), name) == (match listed(table, name) {
            Some(f) => Some(Val::Function(f)),
            None => found_in(e, name),
        }),
    decreases table.len(),
{
    if table.len() > 0 {
        let rest = with_functions(e, table.drop_last());
        law_functions_are_found(e, table.drop_last(), name);
        law_insert_then_get(rest.bindings, table.last().name, Val::Function(table.last().func), name);
    }
}

// ── Sequences ────────────────────────────────────────────────────────────────

/// Whether a function is one whose result stands for a sequence.
pub open spec fn gives_sequence(func: Fun) -> bool {
    match func {
        Fun::Builtin(Code::Standard(n)) => n == "keys"@ || n == "lookup"@,
        Fun::EnvAwareBuiltin(Code::Standard(n)) => n == "filter"@ || n == "match"@,
        _ => false,
    }
}

/// Whether the result of a function stands for a sequence. It goes by the
/// function itself and not by the name that it is called by.
pub fn returns_sequence(func: &FunctionValue) -> (r: bool)
    ensures
        r == gives_sequence(func@),
{
    match func {
        FunctionValue::Builtin(Callable::Standard(n)) => {
            let name = chars_of(n.as_str());
            is_text(name.as_slice(), "keys") || is_text(name.as_slice(), "lookup")
        },
        FunctionValue::EnvAwareBuiltin(Callable::Standard(n)) => {
            let name = chars_of(n.as_str());
            is_text(name.as_slice(), "filter") || is_text(name.as_slice(), "match")
        },
        _ => false,
    }
}

} // verus!
