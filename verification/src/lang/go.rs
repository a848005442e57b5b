//! Go expression support. Parsing and code generation for Go are not
//! available yet: every operation reports so.
//!
//! Templates in Go use an expression language such as Expr or CEL-Go, not raw Go code.

use vstd::prelude::*;

use crate::ast::Token;
use crate::lang::lang::{LangImpl, LangSpecArgument, ParseExprResult};
use crate::text::owned;

verus! {

/// Go language implementation
#[derive(Copy, Clone)]
pub struct GoLang;

impl LangImpl for GoLang {
    fn parse_expression(&self, source: &str) -> (r: Result<ParseExprResult, String>)
        ensures
            r matches Err(m) && m@ == "Go expression parsing is not yet implemented. Expressions use Expr or CEL-Go syntax, not raw Go code."@,
    {
        Err(owned("Go expression parsing is not yet implemented. Expressions use Expr or CEL-Go syntax, not raw Go code."))
    }

    fn parse_forloop_expression(&self, source: &str) -> (r: Result<Vec<Token>, String>)
        ensures
            r matches Err(m) && m@ == "Go for-loop variable extraction is not yet implemented. Expressions use Expr or CEL-Go syntax, not raw Go code."@,
    {
        Err(owned("Go for-loop variable extraction is not yet implemented. Expressions use Expr or CEL-Go syntax, not raw Go code."))
    }

    fn compile(&self, args: Vec<LangSpecArgument>) -> (r: Result<String, String>)
        ensures
            r matches Err(m) && m@ == "Go code generation is not yet implemented"@,
    {
        Err(owned("Go code generation is not yet implemented"))
    }
}

} // verus!
