//! PHP expression support. Parsing and code generation for PHP are not
//! available yet: every operation reports so.

use vstd::prelude::*;

use crate::ast::Token;
use crate::lang::lang::{LangImpl, LangSpecArgument, ParseExprResult};
use crate::text::owned;

verus! {

/// PHP language implementation
#[derive(Copy, Clone)]
pub struct PhpLang;

impl LangImpl for PhpLang {
    fn parse_expression(&self, source: &str) -> (r: Result<ParseExprResult, String>)
        ensures
            r matches Err(m) && m@ == "PHP expression parsing is not yet implemented"@,
    {
        Err(owned("PHP expression parsing is not yet implemented"))
    }

    fn parse_forloop_expression(&self, source: &str) -> (r: Result<Vec<Token>, String>)
        ensures
            r matches Err(m) && m@ == "PHP foreach loop variable extraction is not yet implemented"@,
    {
        Err(owned("PHP foreach loop variable extraction is not yet implemented"))
    }

    fn compile(&self, args: Vec<LangSpecArgument>) -> (r: Result<String, String>)
        ensures
            r matches Err(m) && m@ == "PHP code generation is not yet implemented"@,
    {
        Err(owned("PHP code generation is not yet implemented"))
    }
}

} // verus!
