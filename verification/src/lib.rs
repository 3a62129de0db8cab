//! A JSONata engine: expressions parsed and made ready for evaluation, the
//! standard library, and streams of inputs.
use vstd::prelude::*;

pub mod bignum;
pub mod decimal;
pub mod environment;
pub mod error;
pub mod expression;
pub mod lexer;
pub mod number;
pub mod parser;
pub mod stdlib;
pub mod stream;
pub mod stringify;
pub mod text;
pub mod try_sort;
pub mod value;

verus! {

} // verus!
