use vstd::prelude::*;

pub mod text;
pub mod error;
pub mod lexer;
/// How comments, carriage returns and other white space read in the token
/// grammar.
pub mod comments;
pub mod number;
pub mod parser;
pub mod eval;
pub mod report;

verus! {

} // verus!
