//! The language-agnostic interface to expression languages, and the
//! intermediate form that compiled templates are generated from.

use vstd::prelude::*;

use crate::ast::{token_in, tokens_in, Comment, Token};
use crate::lang::go::GoLang;
use crate::lang::js::JsLang;
use crate::lang::php::PhpLang;
use crate::lang::python::{
    all_plain_names, chain_vars, loop_split, operator_chain, padded_name, python_module,
    token_texts, PythonLang,
};
use crate::lang::rust::RustLang;

verus! {

/// Supported template expression languages
#[derive(Debug, Clone, Copy, PartialEq, Eq)]
pub enum Lang {
    /// Python expressions (default)
    Python,
    /// PHP expressions
    Php,
    /// JavaScript/TypeScript expressions
    Js,
    /// Go expressions (using Expr or CEL-Go syntax, not raw Go code)
    Go,
    /// Rust expressions (using CEL-Rust, fasteval, or evalexpr syntax, not raw Rust code)
    Rust,
}

impl Lang {
    /// The implementation of this language.
    pub fn to_lang_impl(&self) -> (r: LangDispatch)
        ensures
            r.lang == *self,
    {
        LangDispatch { lang: *self }
    }
}

/// A language implementation chosen at run time: every call is forwarded to
/// the implementation of `lang`.
pub struct LangDispatch {
    pub lang: Lang,
}

/// Whether every comment of `cs` is a piece of `source`.
pub open spec fn comments_in(cs: Seq<Comment>, source: Seq<char>) -> bool {
    forall|i: int|
        0 <= i < cs.len() ==> token_in(#[trigger] cs[i].token, source) && token_in(
            cs[i].value,
            source,
        )
}

/// Whether a parse result only reports pieces of `source`.
pub open spec fn expr_result_in(r: ParseExprResult, source: Seq<char>) -> bool {
    &&& tokens_in(r.used_vars@, source)
    &&& tokens_in(r.assigned_vars@, source)
    &&& comments_in(r.comments@, source)
}

/// The longest expression source (in characters) a language implementation
/// accepts: a machine limit, leaving room for the positions just past the
/// end to fit in a `usize`.
pub const MAX_EXPR_LEN: usize = usize::MAX - 16;

/// Result of parsing an expression string
///
/// This is language-agnostic and uses the crate's Token type.
#[derive(Debug, Clone)]
pub struct ParseExprResult {
    /// Tokens for variables that are used from the outside context
    pub used_vars: Vec<Token>,
    /// Tokens for variables that are assigned via walrus operator (:=)
    /// (Python-specific, but included for consistency)
    pub assigned_vars: Vec<Token>,
    /// Comments found in the expression source
    pub comments: Vec<Comment>,
}

/// Trait for language-specific expression parsing implementations
pub trait LangImpl {
    /// Parse an expression string and return the variables it uses.
    ///
    /// Every token reported stands in `source`, with positions relative to it.
    fn parse_expression(&self, source: &str) -> (r: Result<ParseExprResult, String>)
        requires
            source@.len() <= MAX_EXPR_LEN,
        ensures
            r matches Ok(res) ==> expr_result_in(res, source@),
    ;

    /// Parse a for-loop expression (e.g., `each` attribute in `<c-for each="...">`)
    /// and return the loop variable tokens, positioned relative to `source`.
    fn parse_forloop_expression(&self, source: &str) -> (r: Result<Vec<Token>, String>)
        requires
            source@.len() <= MAX_EXPR_LEN,
        ensures
            r matches Ok(vars) ==> tokens_in(vars@, source@),
    ;

    /// Compile a template's intermediate form into language-specific source code.
    fn compile(&self, args: Vec<LangSpecArgument>) -> (r: Result<String, String>);
}

/// What parsing an expression of a language without expression support
/// reports.
pub open spec fn expression_unsupported(l: Lang) -> Seq<char> {
    match l {
        Lang::Php => "PHP expression parsing is not yet implemented"@,
        Lang::Js => "JavaScript/TypeScript expression parsing is not yet implemented"@,
        Lang::Go => "Go expression parsing is not yet implemented. Expressions use Expr or CEL-Go syntax, not raw Go code."@,
        Lang::Rust => "Rust expression parsing is not yet implemented. Expressions use CEL-Rust, fasteval, or evalexpr syntax, not raw Rust code."@,
        Lang::Python => Seq::empty(),
    }
}

/// What reading the loop variables of a language without expression support
/// reports.
pub open spec fn forloop_unsupported(l: Lang) -> Seq<char> {
    match l {
        Lang::Php => "PHP foreach loop variable extraction is not yet implemented"@,
        Lang::Js => "JavaScript for-loop variable extraction is not yet implemented"@,
        Lang::Go => "Go for-loop variable extraction is not yet implemented. Expressions use Expr or CEL-Go syntax, not raw Go code."@,
        Lang::Rust => "Rust for-loop variable extraction is not yet implemented. Expressions use CEL-Rust, fasteval, or evalexpr syntax, not raw Rust code."@,
        Lang::Python => Seq::empty(),
    }
}

/// What compiling for a language without code generation reports.
pub open spec fn compile_unsupported(l: Lang) -> Seq<char> {
    match l {
        Lang::Php => "PHP code generation is not yet implemented"@,
        Lang::Js => "JavaScript code generation is not yet implemented"@,
        Lang::Go => "Go code generation is not yet implemented"@,
        Lang::Rust => "Rust code generation is not yet implemented"@,
        Lang::Python => Seq::empty(),
    }
}

impl LangImpl for LangDispatch {
    fn parse_expression(&self, source: &str) -> (r: Result<ParseExprResult, String>)
        ensures
            self.lang != Lang::Python ==> (r matches Err(m) && m@ == expression_unsupported(
                self.lang,
            )),
            r matches Ok(res) ==> all_plain_names(res.used_vars@) && all_plain_names(
                res.assigned_vars@,
            ),
            forall|a: int, b: int|
                self.lang == Lang::Python && #[trigger] padded_name(source@, a, b) ==> (r matches Ok(
                    res,
                ) && res.used_vars@.len() == 1 && res.used_vars@[0].start_index == a
                    && res.used_vars@[0].end_index == b && res.assigned_vars@.len() == 0
                    && res.comments@.len() == 0),
            forall|t: int| self.lang == Lang::Python && #[trigger] loop_split(source@, t) ==> r is Ok,
            self.lang == Lang::Python && operator_chain(source@) ==> (r matches Ok(res)
                && token_texts(res.used_vars@) == chain_vars(source@) && res.assigned_vars@.len()
                == 0 && res.comments@.len() == 0),
    {
        match self.lang {
            Lang::Python => PythonLang.parse_expression(source),
            Lang::Php => PhpLang.parse_expression(source),
            Lang::Js => JsLang.parse_expression(source),
            Lang::Go => GoLang.parse_expression(source),
            Lang::Rust => RustLang.parse_expression(source),
        }
    }

    fn parse_forloop_expression(&self, source: &str) -> (r: Result<Vec<Token>, String>)
        ensures
            self.lang != Lang::Python ==> (r matches Err(m) && m@ == forloop_unsupported(self.lang)),
            r matches Ok(vars) ==> all_plain_names(vars@),
            forall|t: int|
                self.lang == Lang::Python && #[trigger] loop_split(source@, t) ==> (r matches Ok(
                    vars,
                ) && vars@.len() == 1 && vars@[0].start_index == 0 && vars@[0].end_index == t),
    {
        match self.lang {
            Lang::Python => PythonLang.parse_forloop_expression(source),
            Lang::Php => PhpLang.parse_forloop_expression(source),
            Lang::Js => JsLang.parse_forloop_expression(source),
            Lang::Go => GoLang.parse_forloop_expression(source),
            Lang::Rust => RustLang.parse_forloop_expression(source),
        }
    }

    fn compile(&self, args: Vec<LangSpecArgument>) -> (r: Result<String, String>)
        ensures
            self.lang == Lang::Python ==> (r matches Ok(code) && code@ == python_module(args@)),
            self.lang != Lang::Python ==> (r matches Err(m) && m@ == compile_unsupported(self.lang)),
    {
        match self.lang {
            Lang::Python => PythonLang.compile(args),
            Lang::Php => PhpLang.compile(args),
            Lang::Js => JsLang.compile(args),
            Lang::Go => GoLang.compile(args),
            Lang::Rust => RustLang.compile(args),
        }
    }
}

// #########################################################
// LANGUAGE-AGNOSTIC CODE GENERATION STRUCTURES
// #########################################################

/// Abstract representation of code to be generated.
///
/// This is language-agnostic and can be converted to concrete language code
/// by each `LangImpl` implementation.
#[derive(Debug, PartialEq)]
pub enum LangSpecArgument {
    /// A variable reference (e.g., `source`), printed without quotes.
    Variable(String),
    /// A string that needs escaping when converted to code.
    UnsafeString(String),
    /// A string that doesn't need escaping when converted to code.
    SafeString(String),
    /// The integer value
    Int(usize),
    /// A boolean value
    Bool(bool),
    /// A tuple containing other arguments (a list where tuples do not exist).
    Tuple(Vec<LangSpecArgument>),
    /// A list containing other arguments.
    List(Vec<LangSpecArgument>),
    /// A struct / class instance (or a function call).
    Struct(LangSpecStruct),
}

/// A struct / class instance with a name and arguments.
#[derive(Debug, PartialEq)]
pub struct LangSpecStruct {
    /// The struct / class name (e.g., `NodeClass`)
    pub name: String,
    /// The arguments to the struct / class instance
    pub arguments: Vec<LangSpecArgument>,
}

/// Whether `b` is a copy of `a`: the same variant holding equal strings,
/// numbers and names, and copies of the nested arguments.
pub open spec fn same_arg(a: LangSpecArgument, b: LangSpecArgument) -> bool
    decreases a, 1nat,
{
    match a {
        LangSpecArgument::Variable(s) => b == LangSpecArgument::Variable(s),
        LangSpecArgument::UnsafeString(s) => b == LangSpecArgument::UnsafeString(s),
        LangSpecArgument::SafeString(s) => b == LangSpecArgument::SafeString(s),
        LangSpecArgument::Int(n) => b == LangSpecArgument::Int(n),
        LangSpecArgument::Bool(x) => b == LangSpecArgument::Bool(x),
        LangSpecArgument::Tuple(v) => match b {
            LangSpecArgument::Tuple(w) => same_args(v@, w@),
            _ => false,
        },
        LangSpecArgument::List(v) => match b {
            LangSpecArgument::List(w) => same_args(v@, w@),
            _ => false,
        },
        LangSpecArgument::Struct(st) => match b {
            LangSpecArgument::Struct(t) => t.name == st.name && same_args(
                st.arguments@,
                t.arguments@,
            ),
            _ => false,
        },
    }
}

/// Whether `b` holds, position by position, copies of the arguments of `a`.
pub open spec fn same_args(a: Seq<LangSpecArgument>, b: Seq<LangSpecArgument>) -> bool
    decreases a, 0nat,
{
    &&& a.len() == b.len()
    &&& a.len() > 0 ==> {
        &&& same_args(a.subrange(0, a.len() - 1), b.subrange(0, b.len() - 1))
        &&& same_arg(a[a.len() - 1], b[b.len() - 1])
    }
}

/// A copy of `a`.
fn clone_arg(a: &LangSpecArgument) -> (r: LangSpecArgument)
    ensures
        same_arg(*a, r),
    decreases a,
{
    match a {
        LangSpecArgument::Variable(s) => LangSpecArgument::Variable(s.clone()),
        LangSpecArgument::UnsafeString(s) => LangSpecArgument::UnsafeString(s.clone()),
        LangSpecArgument::SafeString(s) => LangSpecArgument::SafeString(s.clone()),
        LangSpecArgument::Int(n) => LangSpecArgument::Int(*n),
        LangSpecArgument::Bool(b) => LangSpecArgument::Bool(*b),
        LangSpecArgument::Tuple(v) => LangSpecArgument::Tuple(clone_args(v)),
        LangSpecArgument::List(v) => LangSpecArgument::List(clone_args(v)),
        LangSpecArgument::Struct(st) => LangSpecArgument::Struct(
            LangSpecStruct { name: st.name.clone(), arguments: clone_args(&st.arguments) },
        ),
    }
}

/// A copy of every argument of `v`.
fn clone_args(v: &Vec<LangSpecArgument>) -> (r: Vec<LangSpecArgument>)
    ensures
        r@.len() == v@.len(),
        same_args(v@, r@),
    decreases v,
{
    let mut r: Vec<LangSpecArgument> = Vec::new();
    let mut i: usize = 0;
    proof {
        assert(v@.take(0) =~= Seq::<LangSpecArgument>::empty());
    }
    while i < v.len()
        invariant
            i <= v@.len(),
            r@.len() == i,
            same_args(v@.take(i as int), r@),
        decreases v@.len() - i,
    {
        assert(decreases_to!(v => v@[i as int]));
        let x = clone_arg(&v[i]);
        let ghost prev = r@;
        r.push(x);
        proof {
            let vt = v@.take(i + 1);
            assert(vt.subrange(0, i as int) =~= v@.take(i as int));
            assert(r@.subrange(0, i as int) =~= prev);
            assert(vt[i as int] == v@[i as int]);
        }
        i = i + 1;
    }
    proof {
        assert(v@.take(v@.len() as int) =~= v@);
    }
    r
}

impl Clone for LangSpecArgument {
    fn clone(&self) -> (r: Self)
        ensures
            same_arg(*self, r),
    {
        clone_arg(self)
    }
}

impl Clone for LangSpecStruct {
    fn clone(&self) -> (r: Self)
        ensures
            r.name == self.name,
            same_args(self.arguments@, r.arguments@),
    {
        LangSpecStruct { name: self.name.clone(), arguments: clone_args(&self.arguments) }
    }
}

} // verus!
