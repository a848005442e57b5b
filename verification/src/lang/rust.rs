//! Rust expression support. Parsing and code generation for Rust are not
//! available yet: every operation reports so.
//!
//! Templates in Rust use an expression language such as CEL-Rust, fasteval or evalexpr, not raw Rust code.

use vstd::prelude::*;

use crate::ast::Token;
use crate::lang::lang::{LangImpl, LangSpecArgument, ParseExprResult};
use crate::text::owned;

verus! {

/// Rust language implementation
#[derive(Copy, Clone)]
pub struct RustLang;

impl LangImpl for RustLang {
    fn parse_expression(&self, source: &str) -> (r: Result<ParseExprResult, String>)
        ensures
            r matches Err(m) && m@ == "Rust expression parsing is not yet implemented. Expressions use CEL-Rust, fasteval, or evalexpr syntax, not raw Rust code."@,
    {
        Err(owned("Rust expression parsing is not yet implemented. Expressions use CEL-Rust, fasteval, or evalexpr syntax, not raw Rust code."))
    }

    fn parse_forloop_expression(&self, source: &str) -> (r: Result<Vec<Token>, String>)
        ensures
            r matches Err(m) && m@ == "Rust for-loop variable extraction is not yet implemented. Expressions use CEL-Rust, fasteval, or evalexpr syntax, not raw Rust code."@,
    {
        Err(owned("Rust for-loop variable extraction is not yet implemented. Expressions use CEL-Rust, fasteval, or evalexpr syntax, not raw Rust code."))
    }

    fn compile(&self, args: Vec<LangSpecArgument>) -> (r: Result<String, String>)
        ensures
            r matches Err(m) && m@ == "Rust code generation is not yet implemented"@,
    {
        Err(owned("Rust code generation is not yet implemented"))
    }
}

} // verus!
