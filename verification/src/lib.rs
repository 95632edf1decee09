use vstd::prelude::*;

pub mod location;
pub mod operators;
pub mod text;
pub mod lex;
pub mod ast;
pub mod runtime;

verus! {

} // verus!
