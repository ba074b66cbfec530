//! A rewriting interpreter for the Postfix stack language, and a lexer and
//! parser for its programs, with their behaviour stated and proved in Verus.
//!
//! - [`rewrite::step`] takes one rewriting step of a program written as
//!   text;
//! - [`parser::lexer`] and [`parser::parse`] turn a program text into
//!   tokens and the tokens into commands.
use vstd::prelude::*;

pub mod behaviour;
pub mod chars;
pub mod numbers;
pub mod parser;
pub mod postfix;
pub mod rewrite;
pub mod text;

verus! {

/// Why the command-line runner could not start.
#[derive(Clone, Copy, Debug, PartialEq, Eq, Structural)]
pub enum AppError {
    TooFewArguments,
}

impl AppError {
    /// The message that describes this error.
    pub fn message(&self) -> (r: &'static str)
        ensures
            r@ == "too few arguments"@,
    {
        match self {
            AppError::TooFewArguments => "too few arguments",
        }
    }
}

} // verus!
