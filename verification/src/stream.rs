//! Many compiled expressions evaluated on one input after another: compile
//! once, evaluate many.
use vstd::prelude::*;

use crate::environment::{bound, empty_env, found_in, Env, Environment};
use crate::error::{bare_fault, fault, told, Fault, JsonataError, JsonataResult};
use crate::expression::{compiled, Expression};
use crate::parser::ast::{flags_at, Node, NodeId};
use crate::parser::process::consistent;
use crate::parser::{readable, readings};
use crate::stdlib::{law_functions_are_found, listed, register_all, standard_library, with_functions};
use crate::text::{nat_chars, nat_text, push_all, push_text, text_of};
use crate::value::{law_insert_then_get, Callable, Code, Fun, FunctionValue, Val, Value};

verus! {

/// What is told of each evaluation.
pub trait MetricsHook {
    /// Called after an evaluation, with how long it took and whether it went a
    /// short way.
    fn on_eval(
        &self,
        expr_index: usize,
        fast_path: bool,
        duration: std::time::Duration,
        err: Option<&JsonataError>,
    );
}

/// What a hook is told of an evaluation, but for how long it took.
pub struct Report<'a> {
    pub expr_index: usize,
    pub fast_path: bool,
    pub err: Option<&'a JsonataError>,
}

/// A report as contracts speak of it.
pub struct Heard {
    pub slot: usize,
    pub fast: bool,
    pub err: Option<JsonataError>,
}

impl<'a> View for Report<'a> {
    type V = Heard;

    open spec fn view(&self) -> Heard {
        Heard {
            slot: self.expr_index,
            fast: self.fast_path,
            err: match self.err {
                Some(e) => Some(*e),
                None => None,
            },
        }
    }
}

/// What there is to tell of an evaluation: of one that gave a value whether it
/// went a short way, of one that failed its error.
pub open spec fn to_tell(slot: usize, fast: bool, outcome: JsonataResult) -> Heard {
    match outcome {
        Ok(_) => Heard { slot, fast, err: None },
        Err(e) => Heard { slot, fast: false, err: Some(e) },
    }
}

/// What there is to tell of an evaluation.
pub fn report<'a>(slot: usize, fast: bool, outcome: &'a JsonataResult) -> (r: Report<'a>)
    ensures
        r@ == to_tell(slot, fast, *outcome),
{
    match outcome {
        Ok(_) => Report { expr_index: slot, fast_path: fast, err: None },
        Err(e) => Report { expr_index: slot, fast_path: false, err: Some(e) },
    }
}

/// Tell a hook, if there is one, of an evaluation that began at a moment. It has
/// then heard one thing more.
fn tell(
    hook: &Option<Box<dyn MetricsHook>>,
    start: &Option<std::time::Instant>,
    report: &Report,
    Ghost(heard): Ghost<Seq<Heard>>,
) -> (r: Ghost<Seq<Heard>>)
    requires
        hook is Some <==> start is Some,
    ensures
        r@ == (if hook is Some {
            heard.push(report@)
        } else {
            heard
        }),
{
    if let (Some(hook), Some(start)) = (hook, start) {
        hook.on_eval(report.expr_index, report.fast_path, time_since(start), report.err);
        return Ghost(heard.push(report@));
    }
    Ghost(heard)
}

/// How much an evaluator holds.
#[derive(Debug, Clone, Copy)]
pub struct StreamStats {
    /// The number of slots, with those that were removed.
    pub expressions: usize,
}

impl Default for StreamStats {
    fn default() -> (r: StreamStats)
        ensures
            r.expressions == 0,
    {
        StreamStats { expressions: 0 }
    }
}

/// An evaluator of many expressions on one input.
pub struct StreamEvaluator {
    pub exprs: Vec<Option<Expression>>,
    pub metrics: Option<Box<dyn MetricsHook>>,
    /// Functions of the host, by the names that they are called by and the
    /// numbers that the host knows them by.
    pub custom_funcs: Vec<(String, usize)>,
}

/// A moment that time is taken from.
#[verifier::external_type_specification]
#[verifier::external_body]
pub struct ExInstant(std::time::Instant);

/// `std::time::Instant::now`: the moment of the call. Nothing is claimed of it.
#[verifier::external_body]
fn time_now() -> std::time::Instant {
    std::time::Instant::now()
}

/// `std::time::Instant::elapsed`: the time since a moment. Nothing is claimed of
/// it.
#[verifier::external_body]
fn time_since(start: &std::time::Instant) -> std::time::Duration {
    start.elapsed()
}

/// Whether an error says that there is no slot of a number among so many.
pub open spec fn no_slot(e: JsonataError, idx: nat, slots: nat) -> bool {
    &&& fault(e) == bare_fault("D0000"@)
    &&& e.message@ == "expression index "@ + (nat_text(idx) + " out of range [0, "@ + nat_text(slots)) + ")"@
}

// ── Slots ────────────────────────────────────────────────────────────────────

impl StreamEvaluator {
    /// An evaluator with expressions.
    pub fn new(expressions: Vec<Expression>) -> (r: StreamEvaluator)
        ensures
            r.exprs@.len() == expressions@.len(),
            forall|i: int| 0 <= i < expressions@.len() ==> #[trigger] r.exprs@[i] == Some(expressions@[i]),
            r.metrics is None,
            r.custom_funcs@.len() == 0,
    {
        let ghost all = expressions@;
        let mut rest = expressions;
        let mut backwards: Vec<Option<Expression>> = Vec::new();
        while rest.len() > 0
            invariant
                rest@.len() + backwards@.len() == all.len(),
                rest@ =~= all.take(rest@.len() as int),
                forall|i: int|
                    0 <= i < backwards@.len() ==> #[trigger] backwards@[i] == Some(all[all.len() - 1 - i]),
            decreases rest.len(),
        {
            match rest.pop() {
                Some(e) => {
                    backwards.push(Some(e));
                },
                None => {},
            }
        }
        let mut exprs: Vec<Option<Expression>> = Vec::new();
        while backwards.len() > 0
            invariant
                exprs@.len() + backwards@.len() == all.len(),
                forall|i: int|
                    0 <= i < backwards@.len() ==> #[trigger] backwards@[i] == Some(all[all.len() - 1 - i]),
                forall|i: int| 0 <= i < exprs@.len() ==> #[trigger] exprs@[i] == Some(all[i]),
            decreases backwards.len(),
        {
            let ghost last = backwards@[backwards@.len() - 1];
            match backwards.pop() {
                Some(e) => {
                    exprs.push(e);
                },
                None => {},
            }
        }
        StreamEvaluator { exprs, metrics: None, custom_funcs: Vec::new() }
    }

    /// The evaluator with functions of the host, which extend the standard
    /// library. Their names are written without the `$`.
    #[must_use]
    pub fn with_custom_functions(self, fns: Vec<(String, usize)>) -> (r: StreamEvaluator)
        ensures
            r == (StreamEvaluator { custom_funcs: fns, ..self }),
    {
        StreamEvaluator { exprs: self.exprs, metrics: self.metrics, custom_funcs: fns }
    }

    /// The evaluator with something that is told of each evaluation.
    #[must_use]
    pub fn with_metrics(self, hook: Box<dyn MetricsHook>) -> (r: StreamEvaluator)
        ensures
            r == (StreamEvaluator { metrics: Some(hook), ..self }),
    {
        StreamEvaluator { exprs: self.exprs, metrics: Some(hook), custom_funcs: self.custom_funcs }
    }

    /// Add an expression, in a slot that stays its own.
    pub fn add(&mut self, expr: Expression) -> (r: usize)
        ensures
            r == old(self).exprs@.len(),
            final(self).exprs@ == old(self).exprs@.push(Some(expr)),
            final(self).metrics == old(self).metrics,
            final(self).custom_funcs == old(self).custom_funcs,
    {
        let idx: usize = self.exprs.len();
        self.exprs.push(Some(expr));
        idx
    }

    /// Compile a source text and add it. A text that does not compile leaves the
    /// evaluator as it is.
    pub fn compile<G: Fn(&str) -> Result<usize, JsonataError>>(&mut self, src: &str, read: &G) -> (r: Result<
        usize,
        JsonataError,
    >)
        requires
            readable(*read),
        ensures
            final(self).metrics == old(self).metrics,
            final(self).custom_funcs == old(self).custom_funcs,
            match r {
                Ok(i) => {
                    &&& i == old(self).exprs@.len()
                    &&& final(self).exprs@.len() == i + 1
                    &&& final(self).exprs@.drop_last() == old(self).exprs@
                    &&& match final(self).exprs@.last() {
                        Some(e) => {
                            &&& compiled(src@, readings(*read)) == Ok::<(Seq<Node>, NodeId), Fault>((e.arena.all(), e.root))
                            &&& consistent(e.arena.all(), e.arena.flags@)
                            &&& e.root.index < e.arena.all().len() ==> flags_at(e.arena.flags@, e.root) is Some
                        },
                        None => false,
                    }
                },
                Err(e) => {
                    &&& compiled(src@, readings(*read)) == Err::<(Seq<Node>, NodeId), Fault>(fault(e))
                    &&& final(self).exprs == old(self).exprs
                },
            },
    {
        match Expression::compile(src, read) {
            Ok(e) => {
                let ghost before = self.exprs@;
                let i: usize = self.add(e);
                assert(self.exprs@.drop_last() =~= before);
                Ok(i)
            },
            Err(e) => Err(e),
        }
    }

    fn out_of_range(&self, idx: usize) -> (r: JsonataError)
        ensures
            no_slot(r, idx as nat, self.exprs@.len()),
    {
        let mut m: Vec<char> = nat_chars(idx as u64);
        push_text(&mut m, " out of range [0, ");
        push_all(&mut m, nat_chars(self.exprs.len() as u64).as_slice());
        JsonataError::about("D0000", "expression index ", m.as_slice(), ")")
    }

    /// Put another expression in a slot.
    pub fn replace(&mut self, idx: usize, expr: Expression) -> (r: Result<(), JsonataError>)
        ensures
            final(self).metrics == old(self).metrics,
            final(self).custom_funcs == old(self).custom_funcs,
            r is Ok <==> idx < old(self).exprs@.len(),
            match r {
                Ok(_) => final(self).exprs@ == old(self).exprs@.update(idx as int, Some(expr)),
                Err(e) => no_slot(e, idx as nat, old(self).exprs@.len()) && final(self).exprs == old(self).exprs,
            },
    {
        if idx >= self.exprs.len() {
            return Err(self.out_of_range(idx));
        }
        self.exprs.set(idx, Some(expr));
        Ok(())
    }

    /// Empty a slot, which is not used again for what is added.
    pub fn remove(&mut self, idx: usize) -> (r: Result<(), JsonataError>)
        ensures
            final(self).metrics == old(self).metrics,
            final(self).custom_funcs == old(self).custom_funcs,
            r is Ok <==> idx < old(self).exprs@.len(),
            match r {
                Ok(_) => final(self).exprs@ == old(self).exprs@.update(idx as int, None),
                Err(e) => no_slot(e, idx as nat, old(self).exprs@.len()) && final(self).exprs == old(self).exprs,
            },
    {
        if idx >= self.exprs.len() {
            return Err(self.out_of_range(idx));
        }
        self.exprs.set(idx, None);
        Ok(())
    }

    /// Remove all slots.
    pub fn reset(&mut self)
        ensures
            final(self).exprs@.len() == 0,
            final(self).metrics == old(self).metrics,
            final(self).custom_funcs == old(self).custom_funcs,
    {
        self.exprs.clear();
    }

    /// The number of slots, with those that were removed.
    pub fn len(&self) -> (r: usize)
        ensures
            r == self.exprs@.len(),
    {
        self.exprs.len()
    }

    pub fn is_empty(&self) -> (r: bool)
        ensures
            r == (self.exprs@.len() == 0),
    {
        self.exprs.len() == 0
    }

    /// How much the evaluator holds.
    pub fn stats(&self) -> (r: StreamStats)
        ensures
            r.expressions == self.exprs@.len(),
    {
        StreamStats { expressions: self.exprs.len() }
    }
}

// ── Evaluation ───────────────────────────────────────────────────────────────

/// An environment with functions of the host bound, one after the other.
pub open spec fn with_custom(e: Env, fns: Seq<(String, usize)>) -> Env
    decreases fns.len(),
{
    if fns.len() == 0 {
        e
    } else {
        bound(
            with_custom(e, fns.drop_last()),
            fns.last().0@,
            Val::Function(Fun::Builtin(Code::Custom(fns.last().1))),
        )
    }
}

/// The function of the host under a name: the last one.
pub open spec fn custom_listed(fns: Seq<(String, usize)>, name: Seq<char>) -> Option<usize>
    decreases fns.len(),
{
    if fns.len() == 0 {
        None
    } else if fns.last().0@ == name {
        Some(fns.last().1)
    } else {
        custom_listed(fns.drop_last(), name)
    }
}

proof fn lemma_custom_found(e: Env, fns: Seq<(String, usize)>, name: Seq<char>)
    ensures
        found_in(with_custom(e, fns), name) == (match custom_listed(fns, name) {
            Some(f) => Some(Val::Function(Fun::Builtin(Code::Custom(f)))),
            None => found_in(e, name),
        }),
    decreases fns.len(),
{
    if fns.len() > 0 {
        lemma_custom_found(e, fns.drop_last(), name);
        law_insert_then_get(
            with_custom(e, fns.drop_last()).bindings,
            fns.last().0@,
            Val::Function(Fun::Builtin(Code::Custom(fns.last().1))),
            name,
        );
    }
}

/// In a batch a function of the host wins over one of the standard library with
/// the same name, every other name of the library leads to its function, and `$`
/// is the input.
pub proof fn law_batch_names(fns: Seq<(String, usize)>, cancel: Option<usize>, input: Val, name: Seq<char>)
    requires
        !(input is Undefined),
    ensures
        found_in(batch_env(fns, cancel, input), name) == (if name == "$"@ {
            Some(input)
        } else {
            match (custom_listed(fns, name), listed(standard_library(), name)) {
                (Some(f), _) => Some(Val::Function(Fun::Builtin(Code::Custom(f)))),
                (None, Some(f)) => Some(Val::Function(f)),
                (None, None) => None,
            }
        }),
{
    let bare = Env { cancel, ..empty_env() };
    let standard = with_functions(bare, standard_library());
    law_functions_are_found(bare, standard_library(), name);
    lemma_custom_found(standard, fns, name);
    law_insert_then_get(with_custom(standard, fns).bindings, "$"@, input, name);
}

/// The environment that a batch shares: the standard library, with functions of
/// the host over it, and the input as `$`.
pub open spec fn batch_env(fns: Seq<(String, usize)>, cancel: Option<usize>, input: Val) -> Env {
    let own = with_custom(with_functions(Env { cancel, ..empty_env() }, standard_library()), fns);
    if input is Undefined {
        own
    } else {
        bound(own, "$"@, input)
    }
}

/// The environment that a batch is evaluated in: one of its own where there are
/// functions of the host or where it can be cancelled.
pub open spec fn shared_env(fns: Seq<(String, usize)>, cancel: Option<usize>, input: Val) -> Option<Env> {
    if fns.len() > 0 || cancel is Some {
        Some(batch_env(fns, cancel, input))
    } else {
        None
    }
}

pub open spec fn seen_env(e: Option<&Environment>) -> Option<Env> {
    match e {
        Some(env) => Some(env@),
        None => None,
    }
}

/// Whether the evaluator of expressions may give an outcome.
pub open spec fn may_evaluate<E: Fn(&Expression, &Value, Option<&Environment>) -> (JsonataResult, bool)>(
    eval: E,
    expr: Expression,
    input: Value,
    env: Option<Env>,
    r: Result<Val, JsonataError>,
) -> bool {
    exists|e: Option<&Environment>, a: (JsonataResult, bool)| #[trigger]
        eval.ensures((&expr, &input, e), a) && seen_env(e) == env && told(a.0) == r
}

/// The expression in a slot, if there is one.
pub open spec fn in_slot(exprs: Seq<Option<Expression>>, idx: usize) -> Option<Expression> {
    if idx < exprs.len() {
        exprs[idx as int]
    } else {
        None
    }
}

/// A result as a batch gives it: nothing for what is not there.
pub open spec fn found(v: Val) -> Option<Val> {
    if v is Undefined {
        None
    } else {
        Some(v)
    }
}

/// Whether a batch may give a result for a slot.
pub open spec fn may_yield<E: Fn(&Expression, &Value, Option<&Environment>) -> (JsonataResult, bool)>(
    eval: E,
    exprs: Seq<Option<Expression>>,
    idx: usize,
    input: Value,
    env: Option<Env>,
    r: Option<Val>,
) -> bool {
    match in_slot(exprs, idx) {
        None => r is None,
        Some(e) => exists|v: Val| #[trigger] may_evaluate(eval, e, input, env, Ok(v)) && r == found(v),
    }
}

/// Whether a batch may fail at a slot.
pub open spec fn may_break<E: Fn(&Expression, &Value, Option<&Environment>) -> (JsonataResult, bool)>(
    eval: E,
    exprs: Seq<Option<Expression>>,
    idx: usize,
    input: Value,
    env: Option<Env>,
    error: JsonataError,
) -> bool {
    match in_slot(exprs, idx) {
        None => false,
        Some(e) => may_evaluate(eval, e, input, env, Err(error)),
    }
}

/// Whether a batch may give some result for a slot.
pub open spec fn may_pass<E: Fn(&Expression, &Value, Option<&Environment>) -> (JsonataResult, bool)>(
    eval: E,
    exprs: Seq<Option<Expression>>,
    idx: usize,
    input: Value,
    env: Option<Env>,
) -> bool {
    exists|r: Option<Val>| #[trigger] may_yield(eval, exprs, idx, input, env, r)
}

pub open spec fn optional(v: Option<Value>) -> Option<Val> {
    match v {
        Some(v) => Some(v@),
        None => None,
    }
}

/// Whether a batch may come out so: a result for each slot that was asked for,
/// or the first error, before which nothing failed.
pub open spec fn may_come_out<E: Fn(&Expression, &Value, Option<&Environment>) -> (JsonataResult, bool)>(
    eval: E,
    exprs: Seq<Option<Expression>>,
    indices: Seq<usize>,
    input: Value,
    env: Option<Env>,
    r: Result<Vec<Option<Value>>, JsonataError>,
) -> bool {
    match r {
        Ok(results) => {
            &&& results@.len() == indices.len()
            &&& forall|k: int|
                0 <= k < indices.len() ==> may_yield(
                    eval,
                    exprs,
                    #[trigger] indices[k],
                    input,
                    env,
                    optional(results@[k]),
                )
        },
        Err(e) => exists|k: int| #[trigger] breaks_at(eval, exprs, indices, input, env, k, e),
    }
}

/// Whether a batch may fail at a place, after everything before it passed.
pub open spec fn breaks_at<E: Fn(&Expression, &Value, Option<&Environment>) -> (JsonataResult, bool)>(
    eval: E,
    exprs: Seq<Option<Expression>>,
    indices: Seq<usize>,
    input: Value,
    env: Option<Env>,
    k: int,
    error: JsonataError,
) -> bool {
    &&& 0 <= k < indices.len()
    &&& may_break(eval, exprs, indices[k], input, env, error)
    &&& forall|j: int| 0 <= j < k ==> may_pass(eval, exprs, #[trigger] indices[j], input, env)
}

/// The slots of a list that hold an expression, in its order.
pub open spec fn filled(exprs: Seq<Option<Expression>>, indices: Seq<usize>) -> Seq<usize>
    decreases indices.len(),
{
    if indices.len() == 0 {
        Seq::empty()
    } else {
        let before = filled(exprs, indices.drop_last());
        if in_slot(exprs, indices.last()) is Some {
            before.push(indices.last())
        } else {
            before
        }
    }
}

/// Whether the evaluator of expressions may give an outcome of which this is
/// told.
pub open spec fn may_tell<E: Fn(&Expression, &Value, Option<&Environment>) -> (JsonataResult, bool)>(
    eval: E,
    expr: Expression,
    input: Value,
    env: Option<Env>,
    h: Heard,
) -> bool {
    exists|e: Option<&Environment>, a: (JsonataResult, bool)| #[trigger]
        eval.ensures((&expr, &input, e), a) && seen_env(e) == env && h == to_tell(h.slot, a.1, a.0)
}

/// Whether a hook heard of each expression of a list once, in the order of the
/// list, what may be told of it.
pub open spec fn heard_of<E: Fn(&Expression, &Value, Option<&Environment>) -> (JsonataResult, bool)>(
    eval: E,
    exprs: Seq<Option<Expression>>,
    indices: Seq<usize>,
    input: Value,
    env: Option<Env>,
    heard: Seq<Heard>,
) -> bool {
    &&& heard.len() == filled(exprs, indices).len()
    &&& forall|i: int|
        0 <= i < heard.len() ==> (#[trigger] heard[i]).slot == filled(exprs, indices)[i] && in_slot(
            exprs,
            heard[i].slot,
        ) is Some && may_tell(eval, in_slot(exprs, heard[i].slot)->0, input, env, heard[i])
}

/// Whether a hook heard this of a batch: of every expression up to the one that
/// failed, which is told last and with the error that the batch ends with, or
/// else of all.
pub open spec fn may_hear<E: Fn(&Expression, &Value, Option<&Environment>) -> (JsonataResult, bool)>(
    eval: E,
    exprs: Seq<Option<Expression>>,
    indices: Seq<usize>,
    input: Value,
    env: Option<Env>,
    r: Result<Vec<Option<Value>>, JsonataError>,
    heard: Seq<Heard>,
) -> bool {
    match r {
        Ok(_) => {
            &&& heard_of(eval, exprs, indices, input, env, heard)
            &&& forall|i: int| 0 <= i < heard.len() ==> (#[trigger] heard[i]).err is None
        },
        Err(e) => exists|k: int|
            0 < k <= indices.len() && in_slot(exprs, indices[k - 1]) is Some && #[trigger]
                heard_of(eval, exprs, indices.take(k), input, env, heard) && heard.last().err == Some(e) && (forall|
                i: int,
            | 0 <= i < heard.len() - 1 ==> (#[trigger] heard[i]).err is None),
    }
}

/// One more expression that was heard of, or a slot without one.
proof fn lemma_heard_on<E: Fn(&Expression, &Value, Option<&Environment>) -> (JsonataResult, bool)>(
    eval: E,
    exprs: Seq<Option<Expression>>,
    indices: Seq<usize>,
    input: Value,
    env: Option<Env>,
    heard: Seq<Heard>,
    k: int,
    h: Heard,
)
    requires
        0 <= k < indices.len(),
        heard_of(eval, exprs, indices.take(k), input, env, heard),
    ensures
        in_slot(exprs, indices[k]) is None ==> heard_of(eval, exprs, indices.take(k + 1), input, env, heard),
        in_slot(exprs, indices[k]) is Some && h.slot == indices[k] && may_tell(
            eval,
            in_slot(exprs, indices[k])->0,
            input,
            env,
            h,
        ) ==> heard_of(eval, exprs, indices.take(k + 1), input, env, heard.push(h)),
{
    let more = indices.take(k + 1);
    assert(more.drop_last() =~= indices.take(k));
    assert(more.last() == indices[k]);
    let all = heard.push(h);
    assert(forall|i: int| 0 <= i < heard.len() ==> all[i] == #[trigger] heard[i]);
}

/// Whether the evaluation of one slot may come out so.
pub open spec fn may_give_one<E: Fn(&Expression, &Value, Option<&Environment>) -> (JsonataResult, bool)>(
    eval: E,
    exprs: Seq<Option<Expression>>,
    idx: usize,
    input: Value,
    env: Option<Env>,
    r: Result<Val, JsonataError>,
) -> bool {
    match in_slot(exprs, idx) {
        None => r == Ok::<Val, JsonataError>(Val::Undefined),
        Some(e) => may_evaluate(eval, e, input, env, r),
    }
}

/// Whether the evaluator of expressions answers alike where it is asked alike.
pub open spec fn steady<E: Fn(&Expression, &Value, Option<&Environment>) -> (JsonataResult, bool)>(
    eval: E,
    input: Value,
    env: Option<Env>,
) -> bool {
    forall|x: Expression, a: Result<Val, JsonataError>, b: Result<Val, JsonataError>| #[trigger]
        may_evaluate(eval, x, input, env, a) && #[trigger] may_evaluate(eval, x, input, env, b) ==> a == b
}

/// Evaluating one slot and evaluating a list of that slot alone come to the
/// same: the same value, nothing and what is undefined being one, or the same
/// error. An evaluator that answers a question once so and once otherwise is
/// left out.
pub proof fn law_one_is_a_list_of_one<E: Fn(&Expression, &Value, Option<&Environment>) -> (JsonataResult, bool)>(
    eval: E,
    exprs: Seq<Option<Expression>>,
    idx: usize,
    input: Value,
    env: Option<Env>,
    one: JsonataResult,
    many: Result<Vec<Option<Value>>, JsonataError>,
)
    requires
        steady(eval, input, env),
        may_give_one(eval, exprs, idx, input, env, told(one)),
        may_come_out(eval, exprs, seq![idx], input, env, many),
    ensures
        match many {
            Ok(results) => {
                &&& results@.len() == 1
                &&& told(one) == Ok::<Val, JsonataError>(
                    match optional(results@[0]) {
                        Some(v) => v,
                        None => Val::Undefined,
                    },
                )
            },
            Err(e) => told(one) == Err::<Val, JsonataError>(e),
        },
{
    let s = seq![idx];
    match many {
        Ok(results) => {
            assert(may_yield(eval, exprs, s[0], input, env, optional(results@[0])));
            match in_slot(exprs, idx) {
                Some(x) => {
                    let v = choose|v: Val| #[trigger]
                        may_evaluate(eval, x, input, env, Ok(v)) && optional(results@[0]) == found(v);
                    assert(may_evaluate(eval, x, input, env, Ok(v)));
                    assert(may_evaluate(eval, x, input, env, told(one)));
                },
                None => {},
            }
        },
        Err(e) => {
            let k = choose|k: int| #[trigger] breaks_at(eval, exprs, s, input, env, k, e);
            assert(s[k] == idx);
            let x = in_slot(exprs, idx)->Some_0;
            assert(may_evaluate(eval, x, input, env, Err(e)));
            assert(may_evaluate(eval, x, input, env, told(one)));
        },
    }
}

impl StreamEvaluator {
    /// The environment that a batch shares.
    fn batch(&self, input: &Value, cancel: Option<usize>) -> (r: Environment)
        ensures
            r@ == batch_env(self.custom_funcs@, cancel, input@),
    {
        let mut env = Environment::new();
        match cancel {
            Some(token) => {
                env.set_cancel(token);
            },
            None => {},
        }
        register_all(&mut env);
        let ghost base = env@;
        let ghost fns = self.custom_funcs@;
        let mut i: usize = 0;
        assert(fns.take(0) =~= Seq::empty());
        while i < self.custom_funcs.len()
            invariant
                i <= self.custom_funcs.len(),
                fns == self.custom_funcs@,
                env@ == with_custom(base, fns.take(i as int)),
            decreases self.custom_funcs.len() - i,
        {
            assert(fns.take(i + 1).drop_last() =~= fns.take(i as int));
            let f = &self.custom_funcs[i];
            env.bind(f.0.as_str(), Value::Function(FunctionValue::Builtin(Callable::Custom(f.1))));
            i = i + 1;
        }
        assert(fns.take(i as int) =~= fns);
        if !input.is_undefined() {
            env.bind("$", input.clone());
        }
        env
    }

    /// Evaluate many expressions on one input, and give with the outcome what the
    /// hook heard of it.
    fn eval_many_inner<E: Fn(&Expression, &Value, Option<&Environment>) -> (JsonataResult, bool)>(
        &self,
        input: &Value,
        expr_indices: &[usize],
        cancel: Option<usize>,
        eval: &E,
    ) -> (r: (Result<Vec<Option<Value>>, JsonataError>, Ghost<Seq<Heard>>))
        requires
            forall|x: &Expression, v: &Value, e: Option<&Environment>| #[trigger] eval.requires((x, v, e)),
        ensures
            may_come_out(
                *eval,
                self.exprs@,
                expr_indices@,
                *input,
                shared_env(self.custom_funcs@, cancel, input@),
                r.0,
            ),
            self.metrics is None ==> r.1@.len() == 0,
            self.metrics is Some ==> may_hear(
                *eval,
                self.exprs@,
                expr_indices@,
                *input,
                shared_env(self.custom_funcs@, cancel, input@),
                r.0,
                r.1@,
            ),
    {
        let mut heard: Ghost<Seq<Heard>> = Ghost(Seq::empty());
        if expr_indices.len() == 0 {
            return (Ok(Vec::new()), heard);
        }
        let ghost exprs = self.exprs@;
        let ghost env = shared_env(self.custom_funcs@, cancel, input@);
        let own: Option<Environment> = if self.custom_funcs.len() > 0 || cancel.is_some() {
            Some(self.batch(input, cancel))
        } else {
            None
        };
        let shared: Option<&Environment> = match &own {
            Some(e) => Some(e),
            None => None,
        };
        assert(seen_env(shared) == env);
        let mut results: Vec<Option<Value>> = Vec::new();
        let mut i: usize = 0;
        assert(expr_indices@.take(0) =~= Seq::empty());
        while i < expr_indices.len()
            invariant
                self.metrics is None ==> heard@.len() == 0,
                self.metrics is Some ==> heard_of(*eval, exprs, expr_indices@.take(i as int), *input, env, heard@),
                forall|k: int| 0 <= k < heard@.len() ==> (#[trigger] heard@[k]).err is None,
                i <= expr_indices.len(),
                results@.len() == i,
                exprs == self.exprs@,
                seen_env(shared) == env,
                env == shared_env(self.custom_funcs@, cancel, input@),
                forall|x: &Expression, v: &Value, e: Option<&Environment>| #[trigger] eval.requires((x, v, e)),
                forall|k: int|
                    0 <= k < i ==> may_yield(
                        *eval,
                        exprs,
                        #[trigger] expr_indices@[k],
                        *input,
                        env,
                        optional(results@[k]),
                    ),
            decreases expr_indices.len() - i,
        {
            let idx: usize = expr_indices[i];
            let ghost before = results@;
            proof {
                if self.metrics is Some && in_slot(exprs, idx) is None {
                    let none = to_tell(idx, false, Ok(Value::Undefined));
                    lemma_heard_on(*eval, exprs, expr_indices@, *input, env, heard@, i as int, none);
                }
            }
            if idx >= self.exprs.len() {
                results.push(None);
            } else {
                match &self.exprs[idx] {
                    None => {
                        results.push(None);
                    },
                    Some(expr) => {
                        let start: Option<std::time::Instant> = match &self.metrics {
                            Some(_) => Some(time_now()),
                            None => None,
                        };
                        let (outcome, fast_path) = eval(expr, input, shared);
                        assert(eval.ensures((expr, input, shared), (outcome, fast_path)));
                        assert(may_evaluate(*eval, *expr, *input, env, told(outcome)));
                        let ghost so_far = heard@;
                        let ghost h = to_tell(idx, fast_path, outcome);
                        heard = tell(&self.metrics, &start, &report(idx, fast_path, &outcome), heard);
                        proof {
                            assert(may_tell(*eval, *expr, *input, env, h));
                            if self.metrics is Some {
                                lemma_heard_on(*eval, exprs, expr_indices@, *input, env, so_far, i as int, h);
                            }
                        }
                        match outcome {
                            Ok(v) => {
                                let ghost x = v@;
                                results.push(
                                    if v.is_undefined() {
                                        None
                                    } else {
                                        Some(v)
                                    },
                                );
                                assert(optional(results@[i as int]) == found(x));
                            },
                            Err(e) => {
                                proof {
                                    assert(may_break(*eval, exprs, expr_indices@[i as int], *input, env, e));
                                    assert forall|j: int| 0 <= j < i implies may_pass(
                                        *eval,
                                        exprs,
                                        #[trigger] expr_indices@[j],
                                        *input,
                                        env,
                                    ) by {
                                        assert(may_yield(
                                            *eval,
                                            exprs,
                                            expr_indices@[j],
                                            *input,
                                            env,
                                            optional(results@[j]),
                                        ));
                                    }
                                    assert(breaks_at(
                                        *eval,
                                        exprs,
                                        expr_indices@,
                                        *input,
                                        env,
                                        i as int,
                                        e,
                                    ));
                                }
                                return (Err(e), heard);
                            },
                        }
                    },
                }
            }
            assert(may_yield(*eval, exprs, expr_indices@[i as int], *input, env, optional(results@[i as int])));
            assert forall|k: int| 0 <= k < i + 1 implies may_yield(
                *eval,
                exprs,
                #[trigger] expr_indices@[k],
                *input,
                env,
                optional(results@[k]),
            ) by {
                if k < i {
                    assert(results@[k] == before[k]);
                }
            }
            i = i + 1;
        }
        assert(expr_indices@.take(i as int) =~= expr_indices@);
        (Ok(results), heard)
    }

    /// Evaluate many expressions on one input. A slot that was removed or never
    /// was gives nothing, and so does a result that is not there. The first
    /// error ends it.
    pub fn eval_many<E: Fn(&Expression, &Value, Option<&Environment>) -> (JsonataResult, bool)>(
        &self,
        input: &Value,
        expr_indices: &[usize],
        eval: &E,
    ) -> (r: Result<Vec<Option<Value>>, JsonataError>)
        requires
            forall|x: &Expression, v: &Value, e: Option<&Environment>| #[trigger] eval.requires((x, v, e)),
        ensures
            may_come_out(
                *eval,
                self.exprs@,
                expr_indices@,
                *input,
                shared_env(self.custom_funcs@, None, input@),
                r,
            ),
    {
        self.eval_many_inner(input, expr_indices, None, eval).0
    }

    /// Evaluate many expressions on one input, with a token by which the host
    /// may cancel.
    pub fn eval_many_with_cancel<E: Fn(&Expression, &Value, Option<&Environment>) -> (JsonataResult, bool)>(
        &self,
        input: &Value,
        expr_indices: &[usize],
        cancel: usize,
        eval: &E,
    ) -> (r: Result<Vec<Option<Value>>, JsonataError>)
        requires
            forall|x: &Expression, v: &Value, e: Option<&Environment>| #[trigger] eval.requires((x, v, e)),
        ensures
            may_come_out(
                *eval,
                self.exprs@,
                expr_indices@,
                *input,
                shared_env(self.custom_funcs@, Some(cancel), input@),
                r,
            ),
    {
        self.eval_many_inner(input, expr_indices, Some(cancel), eval).0
    }

    fn eval_one_inner<E: Fn(&Expression, &Value, Option<&Environment>) -> (JsonataResult, bool)>(
        &self,
        input: &Value,
        expr_index: usize,
        cancel: Option<usize>,
        eval: &E,
    ) -> (r: JsonataResult)
        requires
            forall|x: &Expression, v: &Value, e: Option<&Environment>| #[trigger] eval.requires((x, v, e)),
        ensures
            may_give_one(
                *eval,
                self.exprs@,
                expr_index,
                *input,
                shared_env(self.custom_funcs@, cancel, input@),
                told(r),
            ),
    {
        let mut one: Vec<usize> = Vec::new();
        one.push(expr_index);
        let ghost env = shared_env(self.custom_funcs@, cancel, input@);
        let ghost exprs = self.exprs@;
        match self.eval_many_inner(input, one.as_slice(), cancel, eval).0 {
            Ok(results) => {
                assert(one@[0] == expr_index);
                assert(may_yield(*eval, exprs, one@[0], *input, env, optional(results@[0])));
                let mut results = results;
                match results.pop() {
                    Some(Some(v)) => Ok(v),
                    _ => Ok(Value::Undefined),
                }
            },
            Err(e) => {
                proof {
                    let k = choose|k: int| #[trigger] breaks_at(*eval, exprs, one@, *input, env, k, e);
                    assert(k == 0);
                }
                Err(e)
            },
        }
    }

    /// Evaluate one expression. A slot that was removed or never was gives what
    /// is undefined.
    pub fn eval_one<E: Fn(&Expression, &Value, Option<&Environment>) -> (JsonataResult, bool)>(
        &self,
        input: &Value,
        expr_index: usize,
        eval: &E,
    ) -> (r: JsonataResult)
        requires
            forall|x: &Expression, v: &Value, e: Option<&Environment>| #[trigger] eval.requires((x, v, e)),
        ensures
            may_give_one(
                *eval,
                self.exprs@,
                expr_index,
                *input,
                shared_env(self.custom_funcs@, None, input@),
                told(r),
            ),
    {
        self.eval_one_inner(input, expr_index, None, eval)
    }

    /// Evaluate one expression, with a token by which the host may cancel.
    pub fn eval_one_with_cancel<E: Fn(&Expression, &Value, Option<&Environment>) -> (JsonataResult, bool)>(
        &self,
        input: &Value,
        expr_index: usize,
        cancel: usize,
        eval: &E,
    ) -> (r: JsonataResult)
        requires
            forall|x: &Expression, v: &Value, e: Option<&Environment>| #[trigger] eval.requires((x, v, e)),
        ensures
            may_give_one(
                *eval,
                self.exprs@,
                expr_index,
                *input,
                shared_env(self.custom_funcs@, Some(cancel), input@),
                told(r),
            ),
    {
        self.eval_one_inner(input, expr_index, Some(cancel), eval)
    }
}

// ── Summary ──────────────────────────────────────────────────────────────────

/// The names of functions of the host, quoted.
pub open spec fn quoted_names(fns: Seq<(String, usize)>) -> Seq<char>
    decreases fns.len(),
{
    if fns.len() == 0 {
        Seq::empty()
    } else {
        quoted_names(fns.drop_last()) + (if fns.len() > 1 {
            ", "@
        } else {
            Seq::empty()
        }) + "\""@ + fns.last().0@ + "\""@
    }
}

/// What an evaluator holds, in words: how many slots, the names of the
/// functions of the host, and whether something is told of evaluations.
pub open spec fn summarized(slots: nat, fns: Seq<(String, usize)>, metrics: bool) -> Seq<char> {
    "StreamEvaluator { expressions: "@ + nat_text(slots) + ", custom_funcs: ["@ + quoted_names(fns) + "], metrics: "@ + (
    if metrics {
        "true"@
    } else {
        "false"@
    }) + " }"@
}

impl StreamEvaluator {
    /// What the evaluator holds, without the expressions themselves.
    pub fn summary(&self) -> (r: String)
        ensures
            r@ == summarized(self.exprs@.len(), self.custom_funcs@, self.metrics is Some),
    {
        let mut t: Vec<char> = Vec::new();
        push_text(&mut t, "StreamEvaluator { expressions: ");
        let n = nat_chars(self.exprs.len() as u64);
        push_all(&mut t, n.as_slice());
        push_text(&mut t, ", custom_funcs: [");
        let ghost before = t@;
        let ghost fns = self.custom_funcs@;
        let mut i: usize = 0;
        assert(fns.take(0) =~= Seq::empty());
        assert(before + quoted_names(fns.take(0)) =~= before);
        while i < self.custom_funcs.len()
            invariant
                i <= self.custom_funcs.len(),
                fns == self.custom_funcs@,
                t@ == before + quoted_names(fns.take(i as int)),
            decreases self.custom_funcs.len() - i,
        {
            assert(fns.take(i + 1).drop_last() =~= fns.take(i as int));
            let ghost so_far = t@;
            if i > 0 {
                push_text(&mut t, ", ");
            }
            push_text(&mut t, "\"");
            push_text(&mut t, self.custom_funcs[i].0.as_str());
            push_text(&mut t, "\"");
            assert(t@ =~= before + quoted_names(fns.take(i + 1)));
            i = i + 1;
        }
        assert(fns.take(i as int) =~= fns);
        push_text(&mut t, "], metrics: ");
        if self.metrics.is_some() {
            push_text(&mut t, "true");
        } else {
            push_text(&mut t, "false");
        }
        push_text(&mut t, " }");
        assert(t@ =~= summarized(self.exprs@.len(), self.custom_funcs@, self.metrics is Some));
        text_of(t.as_slice())
    }
}

} // verus!
