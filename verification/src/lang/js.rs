//! JavaScript/TypeScript expression support. Parsing and code generation for JavaScript/TypeScript are not
//! available yet: every operation reports so.

use vstd::prelude::*;

use crate::ast::Token;
use crate::lang::lang::{LangImpl, LangSpecArgument, ParseExprResult};
use crate::text::owned;

verus! {

/// JavaScript/TypeScript language implementation
#[derive(Copy, Clone)]
pub struct JsLang;

impl LangImpl for JsLang {
    fn parse_expression(&self, source: &str) -> (r: Result<ParseExprResult, String>)
        ensures
            r matches Err(m) && m@ == "JavaScript/TypeScript expression parsing is not yet implemented"@,
    {
        Err(owned("JavaScript/TypeScript expression parsing is not yet implemented"))
    }

    fn parse_forloop_expression(&self, source: &str) -> (r: Result<Vec<Token>, String>)
        ensures
            r matches Err(m) && m@ == "JavaScript for-loop variable extraction is not yet implemented"@,
    {
        Err(owned("JavaScript for-loop variable extraction is not yet implemented"))
    }

    fn compile(&self, args: Vec<LangSpecArgument>) -> (r: Result<String, String>)
        ensures
            r matches Err(m) && m@ == "JavaScript code generation is not yet implemented"@,
    {
        Err(owned("JavaScript code generation is not yet implemented"))
    }
}

} // verus!
