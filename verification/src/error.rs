//! Errors of parsing and compiling templates.

use vstd::prelude::*;

verus! {

/// A template could not be parsed.
#[derive(Debug, Clone, PartialEq, Eq)]
pub struct ParseError {
    /// What went wrong, and where.
    pub message: String,
    /// Where the offending text starts and ends (character indexes).
    pub start_index: usize,
    pub end_index: usize,
}

impl ParseError {
    /// The error message.
    pub fn message(&self) -> (r: String)
        ensures
            r@ == self.message@,
    {
        self.message.clone()
    }
}

/// A template could not be compiled.
#[derive(Debug, Clone, PartialEq, Eq)]
pub enum CompileError {
    /// The template is not well formed (a misplaced or malformed tag).
    Syntax(String),
    /// Any other failure.
    Generic(String),
}

impl CompileError {
    /// The error message.
    pub fn message(&self) -> (r: String)
        ensures
            r@ == match self {
                CompileError::Syntax(m) => m@,
                CompileError::Generic(m) => m@,
            },
    {
        match self {
            CompileError::Syntax(m) => m.clone(),
            CompileError::Generic(m) => m.clone(),
        }
    }
}

} // verus!
