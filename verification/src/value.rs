//! Values: JSON data, functions, and the sequences that evaluation passes around.
use vstd::prelude::*;

use crate::decimal::{number_chars, number_text};
use crate::error::{fail, out, JsonataError, JsonataResult};
use crate::number::Number;
use crate::parser::ast::{BinaryOp, NodeId};
use crate::text::{chars_of, is_text, text_of};

verus! {

/// A JSONata value.
#[derive(Debug)]
pub enum Value {
    /// No value: what a path that leads nowhere gives.
    Undefined,
    Null,
    Bool(bool),
    Number(Number),
    String(String),
    Array(Vec<Value>),
    Object(ObjectMap),
    Function(FunctionValue),
    /// A result still to be collapsed by its consumer.
    Sequence(Sequence),
    /// A call in tail position, still to be made by the evaluator.
    TailCall,
}

/// One member of an object.
#[derive(Debug)]
pub struct Entry {
    pub key: String,
    pub value: Value,
}

/// The members of an object, in the order in which their keys first came.
#[derive(Debug)]
pub struct ObjectMap {
    pub entries: Vec<Entry>,
}

/// Values that a consumer collapses: none to nothing, one to itself.
#[derive(Debug)]
pub struct Sequence {
    pub values: Vec<Value>,
}

/// A function as a value.
#[derive(Debug)]
pub enum FunctionValue {
    Lambda(Lambda),
    Builtin(Callable),
    SignedBuiltin { func: Callable, signature: String },
    EnvAwareBuiltin(Callable),
}

/// A function written in an expression.
#[derive(Debug)]
pub struct Lambda {
    pub params: Vec<String>,
    pub body: NodeId,
    /// Whether the function declares a signature for its arguments.
    pub typed: bool,
    /// The environment that it was made in.
    pub closure: usize,
}

/// The code behind a built-in function: one of the standard library, by its
/// name there, or one that a host has supplied.
#[derive(Debug)]
pub enum Callable {
    Standard(String),
    Custom(usize),
}

// ── Model ────────────────────────────────────────────────────────────────────

/// What a value is.
pub enum Val {
    Undefined,
    Null,
    Bool(bool),
    Number(Number),
    String(Seq<char>),
    Array(Seq<Val>),
    Object(Seq<(Seq<char>, Val)>),
    Function(Fun),
    Sequence(Seq<Val>),
    TailCall,
}

/// What a function value is.
pub enum Fun {
    Lambda { params: Seq<Seq<char>>, body: NodeId, typed: bool, closure: usize },
    Builtin(Code),
    SignedBuiltin { func: Code, signature: Seq<char> },
    EnvAwareBuiltin(Code),
}

/// What stands behind a built-in function.
pub enum Code {
    Standard(Seq<char>),
    Custom(usize),
}

pub open spec fn texts(s: Seq<String>) -> Seq<Seq<char>> {
    s.map_values(|t: String| t@)
}

impl View for Callable {
    type V = Code;

    open spec fn view(&self) -> Code {
        match *self {
            Callable::Standard(n) => Code::Standard(n@),
            Callable::Custom(i) => Code::Custom(i),
        }
    }
}

impl View for FunctionValue {
    type V = Fun;

    open spec fn view(&self) -> Fun {
        match *self {
            FunctionValue::Lambda(l) => Fun::Lambda {
                params: texts(l.params@),
                body: l.body,
                typed: l.typed,
                closure: l.closure,
            },
            FunctionValue::Builtin(c) => Fun::Builtin(c@),
            FunctionValue::SignedBuiltin { func, signature } => Fun::SignedBuiltin {
                func: func@,
                signature: signature@,
            },
            FunctionValue::EnvAwareBuiltin(c) => Fun::EnvAwareBuiltin(c@),
        }
    }
}

pub open spec fn val(v: Value) -> Val
    decreases v,
{
    match v {
        Value::Undefined => Val::Undefined,
        Value::Null => Val::Null,
        Value::Bool(b) => Val::Bool(b),
        Value::Number(n) => Val::Number(n),
        Value::String(s) => Val::String(s@),
        Value::Array(a) => Val::Array(vals(a@)),
        Value::Object(o) => Val::Object(pairs(o.entries@)),
        Value::Function(f) => Val::Function(f@),
        Value::Sequence(s) => Val::Sequence(vals(s.values@)),
        Value::TailCall => Val::TailCall,
    }
}

pub open spec fn vals(s: Seq<Value>) -> Seq<Val>
    decreases s,
{
    Seq::new(
        s.len(),
        |i: int|
            if 0 <= i < s.len() {
                val(s[i])
            } else {
                arbitrary()
            },
    )
}

pub open spec fn pairs(s: Seq<Entry>) -> Seq<(Seq<char>, Val)>
    decreases s,
{
    Seq::new(
        s.len(),
        |i: int|
            if 0 <= i < s.len() {
                (s[i].key@, val(s[i].value))
            } else {
                arbitrary()
            },
    )
}

impl View for Value {
    type V = Val;

    open spec fn view(&self) -> Val {
        val(*self)
    }
}

impl View for ObjectMap {
    type V = Seq<(Seq<char>, Val)>;

    open spec fn view(&self) -> Seq<(Seq<char>, Val)> {
        pairs(self.entries@)
    }
}

impl View for Sequence {
    type V = Seq<Val>;

    open spec fn view(&self) -> Seq<Val> {
        vals(self.values@)
    }
}

// ── Copies ───────────────────────────────────────────────────────────────────

impl Clone for Callable {
    fn clone(&self) -> (r: Callable)
        ensures
            r@ == self@,
    {
        match self {
            Callable::Standard(n) => Callable::Standard(n.clone()),
            Callable::Custom(i) => Callable::Custom(*i),
        }
    }
}

/// A copy of a list of names.
pub fn clone_texts(s: &Vec<String>) -> (r: Vec<String>)
    ensures
        texts(r@) == texts(s@),
{
    let mut r: Vec<String> = Vec::new();
    let mut i: usize = 0;
    while i < s.len()
        invariant
            i <= s.len(),
            r@.len() == i,
            texts(r@) =~= texts(s@).take(i as int),
        decreases s.len() - i,
    {
        r.push(s[i].clone());
        i = i + 1;
    }
    assert(texts(s@).take(i as int) =~= texts(s@));
    r
}

impl Clone for FunctionValue {
    fn clone(&self) -> (r: FunctionValue)
        ensures
            r@ == self@,
    {
        match self {
            FunctionValue::Lambda(l) => FunctionValue::Lambda(
                Lambda { params: clone_texts(&l.params), body: l.body, typed: l.typed, closure: l.closure },
            ),
            FunctionValue::Builtin(c) => FunctionValue::Builtin(c.clone()),
            FunctionValue::SignedBuiltin { func, signature } => FunctionValue::SignedBuiltin {
                func: func.clone(),
                signature: signature.clone(),
            },
            FunctionValue::EnvAwareBuiltin(c) => FunctionValue::EnvAwareBuiltin(c.clone()),
        }
    }
}

impl Clone for Value {
    fn clone(&self) -> (r: Value)
        ensures
            r@ == self@,
        decreases self,
    {
        match self {
            Value::Undefined => {
                assert(val(Value::Undefined) == Val::Undefined);
                Value::Undefined
            },
            Value::Null => {
                assert(val(Value::Null) == Val::Null);
                Value::Null
            },
            Value::Bool(b) => Value::Bool(*b),
            Value::Number(n) => Value::Number(*n),
            Value::String(s) => Value::String(s.clone()),
            Value::Array(a) => Value::Array(clone_all(a)),
            Value::Object(o) => Value::Object(ObjectMap { entries: clone_entries(&o.entries) }),
            Value::Function(f) => Value::Function(f.clone()),
            Value::Sequence(s) => Value::Sequence(Sequence { values: clone_all(&s.values) }),
            Value::TailCall => {
                assert(val(Value::TailCall) == Val::TailCall);
                Value::TailCall
            },
        }
    }
}

/// A copy of a list of values.
pub fn clone_all(s: &Vec<Value>) -> (r: Vec<Value>)
    ensures
        vals(r@) == vals(s@),
        r@.len() == s@.len(),
    decreases s,
{
    let mut r: Vec<Value> = Vec::new();
    let mut i: usize = 0;
    while i < s.len()
        invariant
            i <= s.len(),
            r@.len() == i,
            vals(r@) =~= vals(s@).take(i as int),
        decreases s.len() - i,
    {
        let x = s[i].clone();
        r.push(x);
        i = i + 1;
    }
    assert(vals(s@).take(i as int) =~= vals(s@));
    r
}

fn clone_entries(s: &Vec<Entry>) -> (r: Vec<Entry>)
    ensures
        pairs(r@) == pairs(s@),
    decreases s,
{
    let mut r: Vec<Entry> = Vec::new();
    let mut i: usize = 0;
    while i < s.len()
        invariant
            i <= s.len(),
            r@.len() == i,
            pairs(r@) =~= pairs(s@).take(i as int),
        decreases s.len() - i,
    {
        assert(decreases_to!(s => s@[i as int].value));
        let x = s[i].value.clone();
        r.push(Entry { key: s[i].key.clone(), value: x });
        i = i + 1;
    }
    assert(pairs(s@).take(i as int) =~= pairs(s@));
    r
}

impl Clone for ObjectMap {
    fn clone(&self) -> (r: ObjectMap)
        ensures
            r@ == self@,
    {
        ObjectMap { entries: clone_entries(&self.entries) }
    }
}

// ── Objects ──────────────────────────────────────────────────────────────────

/// Position of the first member with a key, at or after `from`.
pub open spec fn member_at(o: Seq<(Seq<char>, Val)>, key: Seq<char>, from: int) -> Option<int>
    decreases o.len() - from,
{
    if from < 0 || from >= o.len() {
        None
    } else if o[from].0 == key {
        Some(from)
    } else {
        member_at(o, key, from + 1)
    }
}

/// The member with a key.
pub open spec fn member(o: Seq<(Seq<char>, Val)>, key: Seq<char>) -> Option<Val> {
    match member_at(o, key, 0) {
        Some(i) => Some(o[i].1),
        None => None,
    }
}

/// An object with a member set: in place where the key is there, else at the end.
pub open spec fn with_member(o: Seq<(Seq<char>, Val)>, key: Seq<char>, value: Val) -> Seq<(Seq<char>, Val)> {
    match member_at(o, key, 0) {
        Some(i) => o.update(i, (key, value)),
        None => o.push((key, value)),
    }
}

/// Whether no key comes twice.
pub open spec fn distinct_keys(o: Seq<(Seq<char>, Val)>) -> bool {
    forall|i: int, j: int| 0 <= i < j < o.len() ==> (#[trigger] o[i]).0 != (#[trigger] o[j]).0
}

proof fn lemma_member_at(o: Seq<(Seq<char>, Val)>, key: Seq<char>, from: int)
    requires
        0 <= from,
    ensures
        match member_at(o, key, from) {
            Some(i) => from <= i < o.len() && o[i].0 == key && forall|k: int|
                from <= k < i ==> (#[trigger] o[k]).0 != key,
            None => forall|k: int| from <= k < o.len() ==> (#[trigger] o[k]).0 != key,
        },
    decreases o.len() - from,
{
    if from < o.len() && o[from].0 != key {
        lemma_member_at(o, key, from + 1);
    }
}

/// Setting a member keeps the keys distinct.
pub proof fn law_insert_keeps_keys_distinct(o: Seq<(Seq<char>, Val)>, key: Seq<char>, value: Val)
    requires
        distinct_keys(o),
    ensures
        distinct_keys(with_member(o, key, value)),
{
    lemma_member_at(o, key, 0);
    let r = with_member(o, key, value);
    assert forall|i: int, j: int| 0 <= i < j < r.len() implies (#[trigger] r[i]).0 != (#[trigger] r[j]).0 by {
        if i < o.len() && j < o.len() {
            assert(o[i].0 != o[j].0);
        }
    }
}

/// A member that was set is the one that is found, and no other is touched.
pub proof fn law_insert_then_get(o: Seq<(Seq<char>, Val)>, key: Seq<char>, value: Val, other: Seq<char>)
    ensures
        member(with_member(o, key, value), key) == Some(value),
        other != key ==> member(with_member(o, key, value), other) == member(o, other),
{
    let r = with_member(o, key, value);
    lemma_member_at(o, key, 0);
    lemma_member_at(r, key, 0);
    lemma_member_at(o, other, 0);
    lemma_member_at(r, other, 0);
    match member_at(o, key, 0) {
        Some(i) => {
            assert(r[i] == (key, value));
            assert(forall|k: int| 0 <= k < r.len() && k != i ==> r[k] == o[k]);
            let m = member_at(r, key, 0);
            assert(m is Some);
            if m->0 < i {
                assert(o[m->0].0 == key);
            }
            if other != key {
                match (member_at(o, other, 0), member_at(r, other, 0)) {
                    (Some(a), Some(b)) => {
                        if a < b {
                            assert(r[a].0 == other);
                        } else if b < a {
                            assert(o[b].0 == other);
                        }
                    },
                    (Some(a), None) => {
                        assert(r[a].0 == other);
                    },
                    (None, Some(b)) => {
                        assert(o[b].0 == other);
                    },
                    (None, None) => {},
                }
            }
        },
        None => {
            let n = o.len() as int;
            assert(r[n] == (key, value));
            assert(forall|k: int| 0 <= k < n ==> r[k] == o[k]);
            let m = member_at(r, key, 0);
            assert(m is Some);
            if m->0 < n {
                assert(o[m->0].0 == key);
            }
            if other != key {
                match (member_at(o, other, 0), member_at(r, other, 0)) {
                    (Some(a), Some(b)) => {
                        if a < b {
                            assert(r[a].0 == other);
                        } else if b < a {
                            assert(b < n);
                            assert(o[b].0 == other);
                        }
                    },
                    (Some(a), None) => {
                        assert(r[a].0 == other);
                    },
                    (None, Some(b)) => {
                        assert(b < n);
                        assert(o[b].0 == other);
                    },
                    (None, None) => {},
                }
            }
        },
    }
}

impl ObjectMap {
    pub fn new() -> (r: ObjectMap)
        ensures
            r@ == Seq::<(Seq<char>, Val)>::empty(),
    {
        let r = ObjectMap { entries: Vec::new() };
        assert(r@ =~= Seq::<(Seq<char>, Val)>::empty());
        r
    }

    pub fn len(&self) -> (r: usize)
        ensures
            r == self@.len(),
    {
        self.entries.len()
    }

    pub fn is_empty(&self) -> (r: bool)
        ensures
            r == (self@.len() == 0),
    {
        self.entries.len() == 0
    }

    fn position(&self, key: &str) -> (r: Option<usize>)
        ensures
            match r {
                Some(i) => member_at(self@, key@, 0) == Some(i as int) && i < self.entries@.len(),
                None => member_at(self@, key@, 0) is None,
            },
    {
        let k = chars_of(key);
        let mut i: usize = 0;
        while i < self.entries.len()
            invariant
                i <= self.entries.len(),
                k@ == key@,
                member_at(self@, key@, 0) == member_at(self@, key@, i as int),
            decreases self.entries.len() - i,
        {
            assert(self@[i as int].0 == self.entries@[i as int].key@);
            if is_text(k.as_slice(), self.entries[i].key.as_str()) {
                return Some(i);
            }
            i = i + 1;
        }
        None
    }

    /// The member with a key.
    pub fn get(&self, key: &str) -> (r: Option<&Value>)
        ensures
            match r {
                Some(v) => member(self@, key@) == Some(v@),
                None => member(self@, key@) is None,
            },
    {
        match self.position(key) {
            Some(i) => {
                assert(self@[i as int].1 == self.entries@[i as int].value@);
                Some(&self.entries[i].value)
            },
            None => None,
        }
    }

    pub fn contains_key(&self, key: &str) -> (r: bool)
        ensures
            r == (member(self@, key@) is Some),
    {
        self.position(key).is_some()
    }

    /// Set a member.
    pub fn insert(&mut self, key: String, value: Value)
        ensures
            final(self)@ == with_member(old(self)@, key@, value@),
    {
        match self.position(key.as_str()) {
            Some(i) => {
                let ghost before = self@;
                let ghost k = key@;
                let ghost v = value@;
                let e = Entry { key, value };
                self.entries.set(i, e);
                assert(self@ =~= before.update(i as int, (k, v)));
            },
            None => {
                let ghost before = self@;
                let ghost k = key@;
                let ghost v = value@;
                self.entries.push(Entry { key, value });
                assert(self@ =~= before.push((k, v)));
            },
        }
    }
}

// ── Sequences ────────────────────────────────────────────────────────────────

/// A sequence as the value it collapses to.
pub open spec fn collapsed(s: Seq<Val>) -> Val {
    if s.len() == 0 {
        Val::Undefined
    } else if s.len() == 1 {
        s[0]
    } else {
        Val::Array(s)
    }
}

impl Sequence {
    pub fn new() -> (r: Sequence)
        ensures
            r@ == Seq::<Val>::empty(),
    {
        let r = Sequence { values: Vec::new() };
        assert(r@ =~= Seq::<Val>::empty());
        r
    }

    pub fn with_items(values: Vec<Value>) -> (r: Sequence)
        ensures
            r@ == vals(values@),
    {
        Sequence { values }
    }

    /// The value that the sequence stands for.
    pub fn into_value(self) -> (r: Value)
        ensures
            r@ == collapsed(self@),
    {
        let mut values = self.values;
        if values.len() == 0 {
            return Value::Undefined;
        }
        if values.len() == 1 {
            assert(self@[0] == values@[0]@);
            return values.swap_remove(0);
        }
        Value::Array(values)
    }

}

/// A value with a sequence replaced by what it collapses to.
pub open spec fn settled(v: Val) -> Val {
    match v {
        Val::Sequence(s) => collapsed(s),
        _ => v,
    }
}

/// Collapse a result that may be a sequence.
pub fn collapse_sequence(v: Value) -> (r: Value)
    ensures
        r@ == settled(v@),
{
    match v {
        Value::Sequence(s) => s.into_value(),
        other => other,
    }
}

// ── Truth ────────────────────────────────────────────────────────────────────

/// The truth value of a value. An infinity has none.
pub open spec fn truth(v: Val) -> Result<bool, Seq<char>>
    decreases v,
{
    match v {
        Val::Bool(b) => Ok(b),
        Val::Number(n) => if n.infinite() {
            Err("D1001"@)
        } else {
            Ok(!n.nan() && !n.zero())
        },
        Val::String(s) => Ok(s.len() > 0),
        Val::Array(a) => truth_any(a),
        Val::Object(o) => Ok(o.len() > 0),
        Val::Sequence(s) => truth_any(s),
        _ => Ok(false),
    }
}

/// Whether any value is true; all of them must have a truth value.
pub open spec fn truth_any(s: Seq<Val>) -> Result<bool, Seq<char>>
    decreases s,
{
    if s.len() == 0 {
        Ok(false)
    } else {
        match truth_any(s.drop_last()) {
            Err(e) => Err(e),
            Ok(before) => match truth(s.last()) {
                Err(e) => Err(e),
                Ok(b) => Ok(before || b),
            },
        }
    }
}

/// The infinity that keeps a value from having a truth value, in decimal.
pub open spec fn untrue(v: Val) -> Seq<char>
    decreases v,
{
    match v {
        Val::Number(n) => number_text(n),
        Val::Array(a) => untrue_in(a),
        Val::Sequence(s) => untrue_in(s),
        _ => Seq::empty(),
    }
}

/// The first infinity that keeps values from having truth values.
pub open spec fn untrue_in(s: Seq<Val>) -> Seq<char>
    decreases s,
{
    if s.len() == 0 {
        Seq::empty()
    } else if truth_any(s.drop_last()) is Err {
        untrue_in(s.drop_last())
    } else {
        untrue(s.last())
    }
}

/// A truth value or an error, as contracts speak of it.
pub open spec fn out_bool(r: Result<bool, JsonataError>) -> Result<bool, Seq<char>> {
    match r {
        Ok(b) => Ok(b),
        Err(e) => Err(e.code@),
    }
}

proof fn lemma_truth_first_error(s: Seq<Val>, i: int)
    requires
        0 <= i <= s.len(),
        truth_any(s.take(i)) is Err,
    ensures
        truth_any(s) == truth_any(s.take(i)),
        untrue_in(s) == untrue_in(s.take(i)),
    decreases s.len() - i,
{
    if i == s.len() {
        assert(s.take(i) =~= s);
    } else {
        assert(s.take(i + 1).drop_last() =~= s.take(i));
        lemma_truth_first_error(s, i + 1);
    }
}

fn any_true(s: &Vec<Value>) -> (r: Result<bool, JsonataError>)
    ensures
        out_bool(r) == truth_any(vals(s@)),
        r matches Err(e) ==> e.value@ == untrue_in(vals(s@)),
    decreases s,
{
    let mut found: bool = false;
    let mut i: usize = 0;
    let ghost v = vals(s@);
    assert(v.take(0) =~= Seq::empty());
    while i < s.len()
        invariant
            i <= s.len(),
            v == vals(s@),
            truth_any(v.take(i as int)) == Ok::<bool, Seq<char>>(found),
        decreases s.len() - i,
    {
        let b = s[i].to_boolean();
        proof {
            assert(v.take(i + 1).drop_last() =~= v.take(i as int));
            assert(v.take(i + 1).last() == s@[i as int]@);
        }
        match b {
            Ok(b) => {
                found = found || b;
            },
            Err(e) => {
                proof {
                    lemma_truth_first_error(v, i + 1);
                }
                return Err(e);
            },
        }
        i = i + 1;
    }
    assert(v.take(i as int) =~= v);
    Ok(found)
}

impl Value {
    pub fn is_undefined(&self) -> (r: bool)
        ensures
            r == (self@ is Undefined),
    {
        matches!(self, Value::Undefined)
    }

    pub fn is_function(&self) -> (r: bool)
        ensures
            r == (self@ is Function),
    {
        matches!(self, Value::Function(_))
    }

    /// The number that a value is.
    pub fn as_number(&self) -> (r: Option<Number>)
        ensures
            r == number_in(self@),
    {
        match self {
            Value::Number(n) => Some(*n),
            _ => None,
        }
    }

    /// The truth value.
    pub fn to_boolean(&self) -> (r: Result<bool, JsonataError>)
        ensures
            out_bool(r) == truth(self@),
            r matches Err(e) ==> e.value@ == untrue(self@),
        decreases self,
    {
        match self {
            Value::Bool(b) => Ok(*b),
            Value::Number(n) => {
                if n.is_infinite() {
                    let shown = text_of(number_chars(n).as_slice());
                    return Err(JsonataError::with_code("D1001").with_value(shown));
                }
                Ok(!n.is_nan() && !n.is_zero())
            },
            Value::String(s) => Ok(!s.as_str().is_empty()),
            Value::Array(a) => any_true(a),
            Value::Object(o) => Ok(!o.is_empty()),
            Value::Sequence(s) => any_true(&s.values),
            _ => {
                Ok(false)
            },
        }
    }

    /// The elements of an array, or the value itself as the only one.
    pub fn coerce_to_array(&self) -> (r: Vec<Value>)
        ensures
            vals(r@) == items_of(self@),
    {
        match self {
            Value::Array(a) => clone_all(a),
            Value::Sequence(s) => clone_all(&s.values),
            _ => {
                let mut r: Vec<Value> = Vec::new();
                r.push(self.clone());
                assert(vals(r@) =~= seq![self@]);
                r
            },
        }
    }

    /// The function that a value is.
    pub fn require_function(&self) -> (r: Result<FunctionValue, JsonataError>)
        ensures
            match r {
                Ok(f) => self@ == Val::Function(f@),
                Err(e) => !(self@ is Function) && e.code@ == "T0410"@,
            },
    {
        match self {
            Value::Function(f) => Ok(f.clone()),
            _ => Err(JsonataError::new("T0410", "argument must be a function")),
        }
    }
}

pub open spec fn number_in(v: Val) -> Option<Number> {
    match v {
        Val::Number(n) => Some(n),
        _ => None,
    }
}

/// The elements that a value has as an array.
pub open spec fn items_of(v: Val) -> Seq<Val> {
    match v {
        Val::Array(a) => a,
        Val::Sequence(s) => s,
        _ => seq![v],
    }
}

// ── Equality ─────────────────────────────────────────────────────────────────

/// Deep equality: numbers by value, arrays in order, objects whatever their
/// order. Functions are never equal.
pub open spec fn equal_vals(a: Val, b: Val) -> bool
    decreases a,
{
    match (a, b) {
        (Val::Undefined, Val::Undefined) => true,
        (Val::Null, Val::Null) => true,
        (Val::Bool(x), Val::Bool(y)) => x == y,
        (Val::Number(x), Val::Number(y)) => x.eq_value(y),
        (Val::String(x), Val::String(y)) => x == y,
        (Val::Array(x), Val::Array(y)) => x.len() == y.len() && equal_upto(x, y),
        (Val::Sequence(x), Val::Sequence(y)) => x.len() == y.len() && equal_upto(x, y),
        (Val::Object(x), Val::Object(y)) => x.len() == y.len() && equal_members(x, y),
        _ => false,
    }
}

pub open spec fn equal_upto(a: Seq<Val>, b: Seq<Val>) -> bool
    decreases a,
{
    if a.len() == 0 || b.len() == 0 {
        true
    } else {
        equal_vals(a.last(), b[a.len() - 1]) && equal_upto(a.drop_last(), b)
    }
}

/// Whether every member of `a` has an equal one in `b`.
pub open spec fn equal_members(a: Seq<(Seq<char>, Val)>, b: Seq<(Seq<char>, Val)>) -> bool
    decreases a,
{
    if a.len() == 0 {
        true
    } else {
        &&& equal_members(a.drop_last(), b)
        &&& match member(b, a.last().0) {
            Some(v) => equal_vals(a.last().1, v),
            None => false,
        }
    }
}

fn equal_all(a: &Vec<Value>, b: &Vec<Value>) -> (r: bool)
    requires
        a@.len() == b@.len(),
    ensures
        r == equal_upto(vals(a@), vals(b@)),
    decreases a,
{
    let ghost x = vals(a@);
    let ghost y = vals(b@);
    let mut i: usize = a.len();
    assert(x.take(i as int) =~= x);
    while i > 0
        invariant
            i <= a.len(),
            a@.len() == b@.len(),
            x == vals(a@),
            y == vals(b@),
            equal_upto(x, y) == equal_upto(x.take(i as int), y),
        decreases i,
    {
        i = i - 1;
        let same = a[i].deep_equal(&b[i]);
        proof {
            assert(x.take(i + 1).drop_last() =~= x.take(i as int));
            assert(x.take(i + 1).last() == a@[i as int]@);
            assert(y[i as int] == b@[i as int]@);
        }
        if !same {
            return false;
        }
    }
    assert(x.take(0) =~= Seq::empty());
    true
}

fn equal_objects(a: &ObjectMap, b: &ObjectMap) -> (r: bool)
    ensures
        r == equal_members(a@, b@),
    decreases a,
{
    let ghost x = a@;
    let mut i: usize = a.entries.len();
    assert(x.take(i as int) =~= x);
    while i > 0
        invariant
            i <= a.entries.len(),
            x == a@,
            equal_members(x, b@) == equal_members(x.take(i as int), b@),
        decreases i,
    {
        i = i - 1;
        proof {
            assert(x.take(i + 1).drop_last() =~= x.take(i as int));
            assert(x.take(i + 1).last() == (a.entries@[i as int].key@, a.entries@[i as int].value@));
            assert(decreases_to!(a => a.entries@[i as int].value));
        }
        let same = match b.get(a.entries[i].key.as_str()) {
            Some(v) => a.entries[i].value.deep_equal(v),
            None => false,
        };
        if !same {
            return false;
        }
    }
    assert(x.take(0) =~= Seq::empty());
    true
}

impl Value {
    /// Deep equality.
    pub fn deep_equal(&self, other: &Value) -> (r: bool)
        ensures
            r == equal_vals(self@, other@),
        decreases self,
    {
        match (self, other) {
            (Value::Undefined, Value::Undefined) => true,
            (Value::Null, Value::Null) => true,
            (Value::Bool(x), Value::Bool(y)) => *x == *y,
            (Value::Number(x), Value::Number(y)) => x.equals(y),
            (Value::String(x), Value::String(y)) => *x == *y,
            (Value::Array(x), Value::Array(y)) => x.len() == y.len() && equal_all(x, y),
            (Value::Sequence(x), Value::Sequence(y)) => x.values.len() == y.values.len() && equal_all(
                &x.values,
                &y.values,
            ),
            (Value::Object(x), Value::Object(y)) => x.len() == y.len() && equal_objects(x, y),
            _ => false,
        }
    }
}

// ── Order ────────────────────────────────────────────────────────────────────

/// Whether text `a` comes before text `b`, by code points.
pub open spec fn text_before(a: Seq<char>, b: Seq<char>, from: int) -> bool
    decreases a.len() - from,
{
    if from < 0 || from >= b.len() {
        false
    } else if from >= a.len() {
        true
    } else if a[from] != b[from] {
        a[from] < b[from]
    } else {
        text_before(a, b, from + 1)
    }
}

/// Of two texts at most one comes before the other, and neither only where they
/// are the same from there on.
proof fn lemma_text_order_from(a: Seq<char>, b: Seq<char>, from: int)
    requires
        0 <= from <= a.len(),
        from <= b.len(),
        forall|k: int| 0 <= k < from ==> a[k] == b[k],
    ensures
        !(text_before(a, b, from) && text_before(b, a, from)),
        !text_before(a, b, from) && !text_before(b, a, from) ==> a == b,
    decreases a.len() - from,
{
    if from < a.len() && from < b.len() && a[from] == b[from] {
        lemma_text_order_from(a, b, from + 1);
    } else if from >= a.len() && from >= b.len() {
        assert(a =~= b);
    }
}

/// Of two texts at most one comes before the other, and neither only where they
/// are the same.
pub proof fn lemma_text_order(a: Seq<char>, b: Seq<char>)
    ensures
        !(text_before(a, b, 0) && text_before(b, a, 0)),
        !text_before(a, b, 0) && !text_before(b, a, 0) ==> a == b,
{
    lemma_text_order_from(a, b, 0);
}

proof fn lemma_text_transitive_from(a: Seq<char>, b: Seq<char>, c: Seq<char>, from: int)
    requires
        0 <= from,
    ensures
        text_before(a, b, from) && text_before(b, c, from) ==> text_before(a, c, from),
    decreases a.len() - from,
{
    if from < a.len() && from < b.len() && from < c.len() && a[from] == b[from] && b[from] == c[from] {
        lemma_text_transitive_from(a, b, c, from + 1);
    }
}

/// What comes before a text comes before all that comes after it.
pub proof fn lemma_text_transitive(a: Seq<char>, b: Seq<char>, c: Seq<char>)
    ensures
        text_before(a, b, 0) && text_before(b, c, 0) ==> text_before(a, c, 0),
{
    lemma_text_transitive_from(a, b, c, 0);
}

/// Whether text `a` comes before text `b`.
pub fn text_less(a: &str, b: &str) -> (r: bool)
    ensures
        r == text_before(a@, b@, 0),
{
    let x = chars_of(a);
    let y = chars_of(b);
    let mut i: usize = 0;
    while i < x.len() && i < y.len()
        invariant
            i <= x.len(),
            i <= y.len(),
            x@ == a@,
            y@ == b@,
            text_before(a@, b@, 0) == text_before(a@, b@, i as int),
        decreases x.len() - i,
    {
        if x[i] != y[i] {
            return x[i] < y[i];
        }
        i = i + 1;
    }
    i < y.len()
}

/// An ordering comparison.
#[derive(Clone, Copy, Debug, PartialEq, Eq, Structural)]
pub enum CompareOp {
    Lt,
    Le,
    Gt,
    Ge,
}

/// Whether a value can be ordered.
pub open spec fn orderable(v: Val) -> bool {
    v is Number || v is String
}

pub open spec fn number_holds(a: Number, b: Number, op: CompareOp) -> bool {
    match op {
        CompareOp::Lt => a.lt_spec(b),
        CompareOp::Le => a.lt_spec(b) || a.eq_value(b),
        CompareOp::Gt => b.lt_spec(a),
        CompareOp::Ge => b.lt_spec(a) || a.eq_value(b),
    }
}

pub open spec fn text_holds(a: Seq<char>, b: Seq<char>, op: CompareOp) -> bool {
    match op {
        CompareOp::Lt => text_before(a, b, 0),
        CompareOp::Le => !text_before(b, a, 0),
        CompareOp::Gt => text_before(b, a, 0),
        CompareOp::Ge => !text_before(a, b, 0),
    }
}

/// What an ordering operator gives: the left operand is checked before
/// anything else, then an absent operand makes the result absent.
pub open spec fn compared(a: Val, b: Val, op: CompareOp) -> Result<Val, Seq<char>> {
    if !(a is Undefined) && !orderable(a) {
        Err("T2010"@)
    } else if a is Undefined || b is Undefined {
        Ok(Val::Undefined)
    } else if !orderable(b) {
        Err("T2010"@)
    } else {
        match (a, b) {
            (Val::Number(x), Val::Number(y)) => Ok(Val::Bool(number_holds(x, y, op))),
            (Val::String(x), Val::String(y)) => Ok(Val::Bool(text_holds(x, y, op))),
            _ => Err("T2009"@),
        }
    }
}

/// Which of two sort keys comes first: -1, 0 or 1. Absent keys come last.
pub open spec fn ordered(a: Val, b: Val) -> Result<int, Seq<char>> {
    if a is Undefined {
        if b is Undefined {
            Ok(0)
        } else {
            Ok(1)
        }
    } else if b is Undefined {
        Ok(-1)
    } else if !orderable(a) || !orderable(b) {
        Err("T2008"@)
    } else {
        match (a, b) {
            (Val::Number(x), Val::Number(y)) => Ok(
                if x.lt_spec(y) {
                    -1int
                } else if y.lt_spec(x) {
                    1
                } else {
                    0
                },
            ),
            (Val::String(x), Val::String(y)) => Ok(
                if text_before(x, y, 0) {
                    -1int
                } else if text_before(y, x, 0) {
                    1
                } else {
                    0
                },
            ),
            _ => Err("T2007"@),
        }
    }
}

pub open spec fn out_order(r: Result<i8, JsonataError>) -> Result<int, Seq<char>> {
    match r {
        Ok(n) => Ok(n as int),
        Err(e) => Err(e.code@),
    }
}

impl Value {
    /// Apply an ordering operator.
    pub fn compare(&self, other: &Value, op: CompareOp) -> (r: JsonataResult)
        ensures
            out(r) == compared(self@, other@, op),
    {
        match self {
            Value::Undefined | Value::Number(_) | Value::String(_) => {},
            _ => {
                return fail("T2010", "the operands of an ordering operator must be numbers or strings");
            },
        }
        if self.is_undefined() || other.is_undefined() {
            return Ok(Value::Undefined);
        }
        match (self, other) {
            (Value::Number(x), Value::Number(y)) => Ok(
                Value::Bool(
                    match op {
                        CompareOp::Lt => x.lt(y),
                        CompareOp::Le => x.lt(y) || x.equals(y),
                        CompareOp::Gt => y.lt(x),
                        CompareOp::Ge => y.lt(x) || x.equals(y),
                    },
                ),
            ),
            (Value::String(x), Value::String(y)) => Ok(
                Value::Bool(
                    match op {
                        CompareOp::Lt => text_less(x.as_str(), y.as_str()),
                        CompareOp::Le => !text_less(y.as_str(), x.as_str()),
                        CompareOp::Gt => text_less(y.as_str(), x.as_str()),
                        CompareOp::Ge => !text_less(x.as_str(), y.as_str()),
                    },
                ),
            ),
            (Value::Number(_), Value::String(_)) => fail(
                "T2009",
                "the operands of an ordering operator must be of the same type",
            ),
            (Value::String(_), Value::Number(_)) => fail(
                "T2009",
                "the operands of an ordering operator must be of the same type",
            ),
            _ => fail("T2010", "the operands of an ordering operator must be numbers or strings"),
        }
    }

    /// Order two sort keys.
    pub fn compare_order(&self, other: &Value) -> (r: Result<i8, JsonataError>)
        ensures
            out_order(r) == ordered(self@, other@),
            r is Ok ==> -1 <= r->Ok_0 <= 1,
    {
        if self.is_undefined() {
            return if other.is_undefined() {
                Ok(0)
            } else {
                Ok(1)
            };
        }
        if other.is_undefined() {
            return Ok(-1);
        }
        match (self, other) {
            (Value::Number(x), Value::Number(y)) => if x.lt(y) {
                Ok(-1)
            } else if y.lt(x) {
                Ok(1)
            } else {
                Ok(0)
            },
            (Value::String(x), Value::String(y)) => if text_less(x.as_str(), y.as_str()) {
                Ok(-1)
            } else if text_less(y.as_str(), x.as_str()) {
                Ok(1)
            } else {
                Ok(0)
            },
            (Value::Number(_), Value::String(_)) => Err(
                JsonataError::new("T2007", "sort keys must all be of the same type"),
            ),
            (Value::String(_), Value::Number(_)) => Err(
                JsonataError::new("T2007", "sort keys must all be of the same type"),
            ),
            _ => Err(JsonataError::new("T2008", "sort keys must be numbers or strings")),
        }
    }
}

// ── Arithmetic ───────────────────────────────────────────────────────────────

/// What an arithmetic operator gives on two numbers.
pub open spec fn combined(op: BinaryOp, a: Number, b: Number) -> Number {
    match op {
        BinaryOp::Add => a.plus_spec(b),
        BinaryOp::Sub => a.plus_spec(b.neg_spec()),
        BinaryOp::Mul => a.times_spec(b),
        BinaryOp::Div => a.over_spec(b),
        _ => a.rem_spec(b),
    }
}

/// What an arithmetic operator gives. A result out of range is an error,
/// except that dividing by zero gives what the division gives.
pub open spec fn arithmetic(op: BinaryOp, a: Val, b: Val) -> Result<Val, Seq<char>> {
    if !(a is Undefined) && !(a is Number) {
        Err("T2001"@)
    } else if !(b is Undefined) && !(b is Number) {
        Err("T2002"@)
    } else {
        match (a, b) {
            (Val::Number(x), Val::Number(y)) => if op == BinaryOp::Mod && y.zero() {
                Err("D3001"@)
            } else if !combined(op, x, y).finite() && !(op == BinaryOp::Div && y.zero()) {
                Err("D1001"@)
            } else {
                Ok(Val::Number(combined(op, x, y)))
            },
            _ => Ok(Val::Undefined),
        }
    }
}

/// Whether an operator is arithmetic.
pub open spec fn arithmetic_op(op: BinaryOp) -> bool {
    op == BinaryOp::Add || op == BinaryOp::Sub || op == BinaryOp::Mul || op == BinaryOp::Div || op == BinaryOp::Mod
}

/// Apply an arithmetic operator.
pub fn apply_arithmetic(op: BinaryOp, lhs: &Value, rhs: &Value) -> (r: JsonataResult)
    requires
        arithmetic_op(op),
    ensures
        out(r) == arithmetic(op, lhs@, rhs@),
{
    match lhs {
        Value::Undefined | Value::Number(_) => {},
        _ => {
            return fail("T2001", "the left side of an arithmetic operator must be a number");
        },
    }
    match rhs {
        Value::Undefined | Value::Number(_) => {},
        _ => {
            return fail("T2002", "the right side of an arithmetic operator must be a number");
        },
    }
    match (lhs, rhs) {
        (Value::Number(x), Value::Number(y)) => {
            let by_zero: bool = y.is_zero();
            if op == BinaryOp::Mod && by_zero {
                return fail("D3001", "modulo by zero");
            }
            let n = match op {
                BinaryOp::Add => x.plus(y),
                BinaryOp::Sub => x.minus(y),
                BinaryOp::Mul => x.times(y),
                BinaryOp::Div => x.over(y),
                _ => x.rem(y),
            };
            if !n.is_finite() && !(op == BinaryOp::Div && by_zero) {
                return fail("D1001", "number out of range");
            }
            Ok(Value::Number(n))
        },
        _ => Ok(Value::Undefined),
    }
}

// ── Equality ─────────────────────────────────────────────────────────────────

/// Whether no object in a value has a key twice.
pub open spec fn well_keyed(v: Val) -> bool
    decreases v,
{
    match v {
        Val::Array(a) => all_well_keyed(a),
        Val::Sequence(a) => all_well_keyed(a),
        Val::Object(o) => distinct_keys(o) && members_well_keyed(o),
        _ => true,
    }
}

pub open spec fn all_well_keyed(a: Seq<Val>) -> bool
    decreases a,
{
    a.len() == 0 || (all_well_keyed(a.drop_last()) && well_keyed(a.last()))
}

pub open spec fn members_well_keyed(o: Seq<(Seq<char>, Val)>) -> bool
    decreases o,
{
    o.len() == 0 || (members_well_keyed(o.drop_last()) && well_keyed(o.last().1))
}

proof fn lemma_all_well_keyed(a: Seq<Val>, i: int)
    requires
        all_well_keyed(a),
        0 <= i < a.len(),
    ensures
        well_keyed(a[i]),
    decreases a.len(),
{
    if i < a.len() - 1 {
        lemma_all_well_keyed(a.drop_last(), i);
    }
}

proof fn lemma_members_well_keyed(o: Seq<(Seq<char>, Val)>, i: int)
    requires
        members_well_keyed(o),
        0 <= i < o.len(),
    ensures
        well_keyed(o[i].1),
    decreases o.len(),
{
    if i < o.len() - 1 {
        lemma_members_well_keyed(o.drop_last(), i);
    }
}

/// Equal lists are equal place by place.
proof fn lemma_equal_upto(a: Seq<Val>, b: Seq<Val>)
    requires
        a.len() <= b.len(),
    ensures
        equal_upto(a, b) <==> forall|i: int| 0 <= i < a.len() ==> equal_vals(#[trigger] a[i], b[i]),
    decreases a.len(),
{
    if a.len() > 0 {
        let c = a.drop_last();
        lemma_equal_upto(c, b);
        if equal_upto(a, b) {
            assert forall|i: int| 0 <= i < a.len() implies equal_vals(#[trigger] a[i], b[i]) by {
                if i < c.len() {
                    assert(equal_vals(c[i], b[i]));
                }
            }
        }
        if forall|i: int| 0 <= i < a.len() ==> equal_vals(#[trigger] a[i], b[i]) {
            assert forall|i: int| 0 <= i < c.len() implies equal_vals(#[trigger] c[i], b[i]) by {
                assert(c[i] == a[i]);
            }
            assert(equal_vals(a[a.len() - 1], b[a.len() - 1]));
        }
    }
}

/// Whether a member has an equal one in an object.
spec fn matched(p: (Seq<char>, Val), b: Seq<(Seq<char>, Val)>) -> bool {
    match member(b, p.0) {
        Some(v) => equal_vals(p.1, v),
        None => false,
    }
}

proof fn lemma_equal_members(a: Seq<(Seq<char>, Val)>, b: Seq<(Seq<char>, Val)>)
    ensures
        equal_members(a, b) <==> forall|i: int| 0 <= i < a.len() ==> matched(#[trigger] a[i], b),
    decreases a.len(),
{
    if a.len() > 0 {
        let c = a.drop_last();
        lemma_equal_members(c, b);
        if equal_members(a, b) {
            assert forall|i: int| 0 <= i < a.len() implies matched(#[trigger] a[i], b) by {
                if i < c.len() {
                    assert(matched(c[i], b));
                }
            }
        }
        if forall|i: int| 0 <= i < a.len() ==> matched(#[trigger] a[i], b) {
            assert forall|i: int| 0 <= i < c.len() implies matched(#[trigger] c[i], b) by {
                assert(c[i] == a[i]);
            }
            assert(matched(a[a.len() - 1], b));
        }
    }
}

/// A member of an object without double keys is the one found by its key.
proof fn lemma_member_of(o: Seq<(Seq<char>, Val)>, i: int)
    requires
        distinct_keys(o),
        0 <= i < o.len(),
    ensures
        member(o, o[i].0) == Some(o[i].1),
{
    lemma_member_at(o, o[i].0, 0);
    match member_at(o, o[i].0, 0) {
        Some(k) => {
            if k != i {
                assert(o[k].0 != o[i].0 || o[i].0 != o[k].0);
            }
        },
        None => {
            assert(o[i].0 != o[i].0);
        },
    }
}

/// Where every key of an object is one of another that is no larger, the two
/// have the same keys.
proof fn lemma_same_keys(a: Seq<(Seq<char>, Val)>, b: Seq<(Seq<char>, Val)>, j: int) -> (i: int)
    requires
        distinct_keys(a),
        distinct_keys(b),
        a.len() == b.len(),
        forall|k: int| 0 <= k < a.len() ==> member(b, (#[trigger] a[k]).0) is Some,
        0 <= j < b.len(),
    ensures
        0 <= i < a.len(),
        a[i].0 == b[j].0,
{
    let ka = a.map_values(|p: (Seq<char>, Val)| p.0);
    let kb = b.map_values(|p: (Seq<char>, Val)| p.0);
    assert(ka.no_duplicates()) by {
        assert forall|x: int, y: int| 0 <= x < ka.len() && 0 <= y < ka.len() && x != y implies ka[x] != ka[y] by {
            assert(a[x].0 != a[y].0 || a[y].0 != a[x].0);
        }
    }
    assert(kb.no_duplicates()) by {
        assert forall|x: int, y: int| 0 <= x < kb.len() && 0 <= y < kb.len() && x != y implies kb[x] != kb[y] by {
            assert(b[x].0 != b[y].0 || b[y].0 != b[x].0);
        }
    }
    ka.unique_seq_to_set();
    kb.unique_seq_to_set();
    assert(ka.to_set().subset_of(kb.to_set())) by {
        assert forall|s: Seq<char>| ka.to_set().contains(s) implies kb.to_set().contains(s) by {
            let x = choose|x: int| 0 <= x < ka.len() && ka[x] == s;
            assert(member(b, a[x].0) is Some);
            lemma_member_at(b, a[x].0, 0);
            let y = member_at(b, a[x].0, 0)->0;
            assert(kb[y] == s);
        }
    }
    vstd::set_lib::lemma_subset_equality(ka.to_set(), kb.to_set());
    assert(kb[j] == b[j].0);
    assert(kb.to_set().contains(kb[j]));
    assert(ka.to_set().contains(kb[j]));
    let i = choose|i: int| 0 <= i < ka.len() && ka[i] == kb[j];
    assert(ka[i] == a[i].0);
    i
}

/// Equality is symmetric.
pub proof fn law_equality_is_symmetric(a: Val, b: Val)
    requires
        well_keyed(a),
        well_keyed(b),
        equal_vals(a, b),
    ensures
        equal_vals(b, a),
    decreases a,
{
    match (a, b) {
        (Val::Array(x), Val::Array(y)) => {
            lemma_equal_upto(x, y);
            lemma_equal_upto(y, x);
            assert forall|i: int| 0 <= i < y.len() implies equal_vals(#[trigger] y[i], x[i]) by {
                lemma_all_well_keyed(x, i);
                lemma_all_well_keyed(y, i);
                assert(decreases_to!(a => x[i]));
                law_equality_is_symmetric(x[i], y[i]);
            }
        },
        (Val::Sequence(x), Val::Sequence(y)) => {
            lemma_equal_upto(x, y);
            lemma_equal_upto(y, x);
            assert forall|i: int| 0 <= i < y.len() implies equal_vals(#[trigger] y[i], x[i]) by {
                lemma_all_well_keyed(x, i);
                lemma_all_well_keyed(y, i);
                assert(decreases_to!(a => x[i]));
                law_equality_is_symmetric(x[i], y[i]);
            }
        },
        (Val::Object(x), Val::Object(y)) => {
            lemma_equal_members(x, y);
            lemma_equal_members(y, x);
            assert forall|k: int| 0 <= k < x.len() implies member(y, (#[trigger] x[k]).0) is Some by {
                assert(matched(x[k], y));
            }
            assert forall|j: int| 0 <= j < y.len() implies matched(#[trigger] y[j], x) by {
                let i = lemma_same_keys(x, y, j);
                lemma_member_of(x, i);
                lemma_member_of(y, j);
                assert(matched(x[i], y));
                lemma_members_well_keyed(x, i);
                lemma_members_well_keyed(y, j);
                assert(decreases_to!(a => x[i].1));
                law_equality_is_symmetric(x[i].1, y[j].1);
            }
        },
        _ => {},
    }
}

} // verus!
