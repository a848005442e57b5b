//! Spans and parse-tree pairs: the pieces of a grammar-driven parse.
//!
//! A `Pair` is one match of a grammar `Rule`: the rule, the span of input
//! it covered, and the pairs of its sub-rules, in order.

use vstd::prelude::*;
use vstd::string::StringSliceAdditionalSpecFns;

use crate::error::ParseError;
use crate::text::{owned, push_str};

verus! {

/// A piece `start..end` (byte offsets into its UTF-8 encoding) of an input
/// string.
#[derive(Debug, Clone, Copy, PartialEq, Eq)]
pub struct Span<'i> {
    pub input: &'i str,
    pub start: usize,
    pub end: usize,
}

/// The rules of the template grammar.
#[derive(Debug, Clone, Copy, PartialEq, Eq, Structural)]
pub enum Rule {
    Template,
    Text,
    Interpolation,
    Expression,
    Node,
    StartTag,
    EndTag,
    TagName,
    Attribute,
    AttributeKey,
    AttributeValue,
    RawContent,
}

/// The name of a rule.
pub open spec fn rule_name(r: Rule) -> Seq<char> {
    match r {
        Rule::Template => "Template"@,
        Rule::Text => "Text"@,
        Rule::Interpolation => "Interpolation"@,
        Rule::Expression => "Expression"@,
        Rule::Node => "Node"@,
        Rule::StartTag => "StartTag"@,
        Rule::EndTag => "EndTag"@,
        Rule::TagName => "TagName"@,
        Rule::Attribute => "Attribute"@,
        Rule::AttributeKey => "AttributeKey"@,
        Rule::AttributeValue => "AttributeValue"@,
        Rule::RawContent => "RawContent"@,
    }
}

impl Rule {
    /// The rule's name.
    pub fn name(&self) -> (r: &'static str)
        ensures
            r@ == rule_name(*self),
    {
        match self {
            Rule::Template => "Template",
            Rule::Text => "Text",
            Rule::Interpolation => "Interpolation",
            Rule::Expression => "Expression",
            Rule::Node => "Node",
            Rule::StartTag => "StartTag",
            Rule::EndTag => "EndTag",
            Rule::TagName => "TagName",
            Rule::Attribute => "Attribute",
            Rule::AttributeKey => "AttributeKey",
            Rule::AttributeValue => "AttributeValue",
            Rule::RawContent => "RawContent",
        }
    }
}

/// One match of a rule: what it covered and the matches of its sub-rules.
#[derive(Debug, PartialEq, Eq)]
pub struct Pair<'i> {
    pub rule: Rule,
    pub span: Span<'i>,
    pub inner: Vec<Pair<'i>>,
}

/// The span covering all of `input`.
pub fn span_from_str<'i>(input: &'i str) -> (r: Span<'i>)
    ensures
        r.input == input,
        r.start == 0,
        r.end == input.spec_bytes().len(),
{
    Span { input, start: 0, end: input.as_bytes().len() }
}

impl ParseError {
    /// An error about the text covered by `span`.
    pub fn from_span(span: Span<'_>, message: String) -> (r: ParseError)
        ensures
            r.message == message,
            r.start_index == span.start,
            r.end_index == span.end,
    {
        ParseError { message, start_index: span.start, end_index: span.end }
    }
}

/// Check that `pair` matched `expected`.
pub fn assert_rule(pair: &Pair<'_>, expected: Rule) -> (r: Result<(), ParseError>)
    ensures
        r is Ok <==> pair.rule == expected,
        r matches Err(e) ==> e.start_index == pair.span.start && e.end_index == pair.span.end
            && e.message@ == "expected a pair "@ + rule_name(expected) + ", found a pair "@
            + rule_name(pair.rule),
{
    if pair.rule == expected {
        Ok(())
    } else {
        let mut m = owned("expected a pair ");
        push_str(&mut m, expected.name());
        push_str(&mut m, ", found a pair ");
        push_str(&mut m, pair.rule.name());
        Err(ParseError::from_span(pair.span, m))
    }
}

/// Given a pair (a matched rule), return its first inner pair, which must
/// have matched `expected_rule`.
pub fn unwrap_pair<'i>(pair: Pair<'i>, expected_rule: Rule) -> (r: Result<Pair<'i>, ParseError>)
    ensures
        r is Ok <==> pair.inner@.len() > 0 && pair.inner@[0].rule == expected_rule,
        r matches Ok(inner) ==> inner == pair.inner@[0],
        pair.inner@.len() == 0 ==> (r matches Err(e) && e.start_index == pair.span.start
            && e.end_index == pair.span.end && e.message@ == "pair "@ + rule_name(pair.rule)
            + " should contain a pair "@ + rule_name(expected_rule)),
        pair.inner@.len() > 0 && pair.inner@[0].rule != expected_rule ==> (r matches Err(e)
            && e.start_index == pair.inner@[0].span.start && e.end_index
            == pair.inner@[0].span.end && e.message@ == "expected a pair "@ + rule_name(
            expected_rule,
        ) + ", found a pair "@ + rule_name(pair.inner@[0].rule)),
{
    let pair_span = pair.span;
    let pair_rule = pair.rule;
    let mut inner_pairs = pair.inner;
    if inner_pairs.len() == 0 {
        let mut m = owned("pair ");
        push_str(&mut m, pair_rule.name());
        push_str(&mut m, " should contain a pair ");
        push_str(&mut m, expected_rule.name());
        return Err(ParseError::from_span(pair_span, m));
    }
    let inner = inner_pairs.swap_remove(0);
    assert_rule(&inner, expected_rule)?;
    Ok(inner)
}

} // verus!
