//! Environments: what names are bound to.
use vstd::prelude::*;

use crate::value::{member, with_member, ObjectMap, Val, Value};

verus! {

/// Names bound to values, and the token by which a host may cancel what is
/// evaluated there, if there is one.
#[derive(Debug)]
pub struct Environment {
    pub bindings: ObjectMap,
    pub cancel: Option<usize>,
}

/// What an environment is.
pub struct Env {
    pub bindings: Seq<(Seq<char>, Val)>,
    pub cancel: Option<usize>,
}

impl View for Environment {
    type V = Env;

    open spec fn view(&self) -> Env {
        Env { bindings: self.bindings@, cancel: self.cancel }
    }
}

/// An environment with nothing in it.
pub open spec fn empty_env() -> Env {
    Env { bindings: Seq::empty(), cancel: None }
}

/// An environment with a name bound.
pub open spec fn bound(e: Env, name: Seq<char>, value: Val) -> Env {
    Env { bindings: with_member(e.bindings, name, value), ..e }
}

/// What a name is bound to.
pub open spec fn found_in(e: Env, name: Seq<char>) -> Option<Val> {
    member(e.bindings, name)
}

impl Environment {
    pub fn new() -> (r: Environment)
        ensures
            r@ == empty_env(),
    {
        Environment { bindings: ObjectMap::new(), cancel: None }
    }

    /// Bind a name.
    pub fn bind(&mut self, name: &str, value: Value)
        ensures
            final(self)@ == bound(old(self)@, name@, value@),
    {
        self.bindings.insert(name.to_owned(), value);
    }

    /// What a name is bound to.
    pub fn lookup(&self, name: &str) -> (r: Option<Value>)
        ensures
            match r {
                Some(v) => found_in(self@, name@) == Some(v@),
                None => found_in(self@, name@) is None,
            },
    {
        match self.bindings.get(name) {
            Some(v) => Some(v.clone()),
            None => None,
        }
    }

    /// Let a host cancel what is evaluated here.
    pub fn set_cancel(&mut self, token: usize)
        ensures
            final(self)@ == (Env { cancel: Some(token), ..old(self)@ }),
    {
        self.cancel = Some(token);
    }
}

} // verus!
