//! What built-in functions ask of the evaluator that runs them: to call a
//! function value, and to say whether the evaluation may go on.
use vstd::prelude::*;

use crate::error::{out, JsonataError, JsonataResult};
use crate::value::{vals, Fun, FunctionValue, Val, Value};

verus! {

/// A question to the evaluator.
pub enum Ask {
    /// Call a function with arguments and a context item, in an environment of
    /// its own or else in that of the caller.
    Call { func: Fun, args: Seq<Val>, focus: Val, scope: Option<usize> },
    /// May the evaluation go on, at this step?
    Poll(usize),
}

/// An answer: a value, or the code of an error. To a poll that lets the
/// evaluation go on, the value says nothing.
pub type Answer = Result<Val, Seq<char>>;

/// Whether the evaluator may give an answer to a call.
pub open spec fn may_return<C: Fn(&FunctionValue, &Vec<Value>, &Value, Option<usize>) -> JsonataResult>(
    call: C,
    func: Fun,
    args: Seq<Val>,
    focus: Val,
    scope: Option<usize>,
    answer: Answer,
) -> bool {
    exists|f: &FunctionValue, a: &Vec<Value>, v: &Value, r: JsonataResult| #[trigger]
        call.ensures((f, a, v, scope), r) && f@ == func && vals(a@) == args && v@ == focus && out(r) == answer
}

/// Whether the evaluator may give an answer to a poll.
pub open spec fn may_go_on<P: Fn(usize) -> Result<(), JsonataError>>(poll: P, step: usize, answer: Answer) -> bool {
    exists|r: Result<(), JsonataError>| #[trigger]
        poll.ensures((step,), r) && answer == (match r {
            Ok(_) => Ok::<Val, Seq<char>>(Val::Undefined),
            Err(e) => Err(e.code@),
        })
}

/// Whether the evaluator may give an answer to a question.
pub open spec fn may_answer<
    C: Fn(&FunctionValue, &Vec<Value>, &Value, Option<usize>) -> JsonataResult,
    P: Fn(usize) -> Result<(), JsonataError>,
>(call: C, poll: P, ask: Ask, answer: Answer) -> bool {
    match ask {
        Ask::Call { func, args, focus, scope } => may_return(call, func, args, focus, scope, answer),
        Ask::Poll(step) => may_go_on(poll, step, answer),
    }
}

/// Whether an evaluator can be asked anything.
pub open spec fn open_to_all<
    C: Fn(&FunctionValue, &Vec<Value>, &Value, Option<usize>) -> JsonataResult,
    P: Fn(usize) -> Result<(), JsonataError>,
>(call: C, poll: P) -> bool {
    &&& forall|f: &FunctionValue, a: &Vec<Value>, v: &Value, s: Option<usize>| #[trigger]
        call.requires((f, a, v, s))
    &&& forall|i: usize| #[trigger] poll.requires((i,))
}

/// What a function does next, in a state of its own.
pub enum Plan {
    Put(Ask),
    Finish(Result<Val, Seq<char>>),
}

/// How a function works that asks as it goes: where it starts, what it does
/// next, and what an answer makes of its state.
#[verifier::reject_recursive_types(S)]
pub struct Course<S> {
    pub start: S,
    pub plan: spec_fn(S) -> Plan,
    pub heed: spec_fn(S, Answer) -> S,
}

impl<S> Course<S> {
    /// The state after answers.
    pub open spec fn after(self, answers: Seq<Answer>) -> S
        decreases answers.len(),
    {
        if answers.len() == 0 {
            self.start
        } else {
            (self.heed)(self.after(answers.drop_last()), answers.last())
        }
    }

    /// What is done after answers.
    pub open spec fn next(self, answers: Seq<Answer>) -> Plan {
        (self.plan)(self.after(answers))
    }

    /// Whether answers are such as the evaluator may give to what is asked.
    pub open spec fn heard<
        C: Fn(&FunctionValue, &Vec<Value>, &Value, Option<usize>) -> JsonataResult,
        P: Fn(usize) -> Result<(), JsonataError>,
    >(self, call: C, poll: P, answers: Seq<Answer>) -> bool {
        forall|k: int|
            0 <= k < answers.len() ==> match self.next(#[trigger] answers.take(k)) {
                Plan::Put(ask) => may_answer(call, poll, ask, answers[k]),
                Plan::Finish(_) => false,
            }
    }

    /// Whether a result is what comes of asking the evaluator step by step.
    pub open spec fn ends<
        C: Fn(&FunctionValue, &Vec<Value>, &Value, Option<usize>) -> JsonataResult,
        P: Fn(usize) -> Result<(), JsonataError>,
    >(self, call: C, poll: P, r: Result<Val, Seq<char>>) -> bool {
        exists|answers: Seq<Answer>| #[trigger]
            self.heard(call, poll, answers) && self.next(answers) == Plan::Finish(r)
    }

    /// Another answer heard.
    pub proof fn lemma_heard<
        C: Fn(&FunctionValue, &Vec<Value>, &Value, Option<usize>) -> JsonataResult,
        P: Fn(usize) -> Result<(), JsonataError>,
    >(self, call: C, poll: P, answers: Seq<Answer>, ask: Ask, answer: Answer)
        requires
            self.heard(call, poll, answers),
            self.next(answers) == Plan::Put(ask),
            may_answer(call, poll, ask, answer),
        ensures
            self.heard(call, poll, answers.push(answer)),
            self.after(answers.push(answer)) == (self.heed)(self.after(answers), answer),
    {
        let more = answers.push(answer);
        assert(more.drop_last() =~= answers);
        assert forall|k: int| 0 <= k < more.len() implies match self.next(#[trigger] more.take(k)) {
            Plan::Put(ask) => may_answer(call, poll, ask, more[k]),
            Plan::Finish(_) => false,
        } by {
            if k < answers.len() {
                assert(more.take(k) =~= answers.take(k));
                assert(more[k] == answers[k]);
            } else {
                assert(more.take(k) =~= answers);
            }
        }
    }

    /// Nothing heard yet.
    pub proof fn lemma_start<
        C: Fn(&FunctionValue, &Vec<Value>, &Value, Option<usize>) -> JsonataResult,
        P: Fn(usize) -> Result<(), JsonataError>,
    >(self, call: C, poll: P)
        ensures
            self.heard(call, poll, Seq::empty()),
            self.after(Seq::empty()) == self.start,
    {
    }
}

/// The answer to a poll.
pub open spec fn poll_answer(r: Result<(), JsonataError>) -> Answer {
    match r {
        Ok(_) => Ok(Val::Undefined),
        Err(e) => Err(e.code@),
    }
}

/// Call a function.
pub fn ask_call<C: Fn(&FunctionValue, &Vec<Value>, &Value, Option<usize>) -> JsonataResult>(
    call: &C,
    func: &FunctionValue,
    args: &Vec<Value>,
    focus: &Value,
    scope: Option<usize>,
) -> (r: JsonataResult)
    requires
        call.requires((func, args, focus, scope)),
    ensures
        may_return(*call, func@, vals(args@), focus@, scope, out(r)),
{
    let r = call(func, args, focus, scope);
    assert(call.ensures((func, args, focus, scope), r));
    r
}

/// Ask whether to go on.
pub fn ask_poll<P: Fn(usize) -> Result<(), JsonataError>>(poll: &P, step: usize) -> (r: Result<(), JsonataError>)
    requires
        poll.requires((step,)),
    ensures
        may_go_on(*poll, step, poll_answer(r)),
{
    let r = poll(step);
    assert(poll.ensures((step,), r));
    r
}

/// Whether looking a name up in an environment may give a value; a name that
/// is not bound counts as undefined.
pub open spec fn may_find<L: Fn(usize, &str) -> Option<Value>>(
    lookup: L,
    scope: usize,
    name: Seq<char>,
    found: Val,
) -> bool {
    exists|n: &str, r: Option<Value>| #[trigger]
        lookup.ensures((scope, n), r) && n@ == name && found == (match r {
            Some(v) => v@,
            None => Val::Undefined,
        })
}

/// Look a name up.
pub fn ask_lookup<L: Fn(usize, &str) -> Option<Value>>(lookup: &L, scope: usize, name: &str) -> (r: Value)
    requires
        lookup.requires((scope, name)),
    ensures
        may_find(*lookup, scope, name@, r@),
{
    let r = lookup(scope, name);
    assert(lookup.ensures((scope, name), r));
    match r {
        Some(v) => v,
        None => Value::Undefined,
    }
}

} // verus!
