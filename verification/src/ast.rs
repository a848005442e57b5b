//! The parsed form of a template.

use vstd::prelude::*;

use crate::text::{col_at, line_at};

verus! {

/// A piece of the template source: its text and where it stands.
///
/// `start_index`/`end_index` count characters from the start of the
/// template; `line` and `col` are 1-based.
#[derive(Debug, Clone, PartialEq, Eq)]
pub struct Token {
    pub content: String,
    pub start_index: usize,
    pub end_index: usize,
    pub line: usize,
    pub col: usize,
}

/// A comment found inside an expression (`# ...` in Python).
#[derive(Debug, Clone, PartialEq, Eq)]
pub struct Comment {
    /// The whole comment, marker included.
    pub token: Token,
    /// The comment text after the marker.
    pub value: Token,
}

/// How an attribute's value is to be read.
#[derive(Debug, Clone, Copy, PartialEq, Eq)]
pub enum AttrKind {
    /// A plain `key="value"` attribute.
    Static,
    /// A key without a value.
    Boolean,
    /// A `c-` attribute whose value is an expression.
    Expression,
    /// A `c-` attribute whose value is a nested template.
    Template,
}

/// One attribute of a start tag.
#[derive(Debug, Clone, PartialEq, Eq)]
pub struct TagAttr {
    pub key: Token,
    /// The value, without its quotes.
    pub value: Option<Token>,
    pub kind: AttrKind,
    /// Whether the value was written in quotes.
    pub quoted: bool,
    /// The variables the value reads.
    pub used_vars: Vec<Token>,
}

/// A start tag `<name attr...>` or `<name attr... />`.
#[derive(Debug, Clone, PartialEq, Eq)]
pub struct StartTag {
    /// The whole tag.
    pub token: Token,
    pub name: Token,
    pub attrs: Vec<TagAttr>,
    pub self_closing: bool,
}

/// An end tag `</name>`.
#[derive(Debug, Clone, PartialEq, Eq)]
pub struct EndTag {
    /// The whole tag.
    pub token: Token,
    pub name: Token,
}

/// A `{{ expr }}` interpolation.
#[derive(Debug, Clone, PartialEq, Eq)]
pub struct ExprElement {
    /// The whole interpolation, braces included.
    pub token: Token,
    /// The expression between the braces.
    pub expr: Token,
    pub used_vars: Vec<Token>,
}

/// An element or component: a start tag, and for a tag that is not
/// self-closing, its body and end tag.
#[derive(Debug, PartialEq, Eq)]
pub struct Node {
    pub start_tag: StartTag,
    pub end_tag: Option<EndTag>,
    pub body: Option<Template>,
    /// The variables the tag and its body read from outside.
    pub used_vars: Vec<Token>,
    /// The variables the tag introduces for its body (loop variables).
    pub introduced_vars: Vec<Token>,
}

/// One piece of a template body.
#[derive(Debug, PartialEq, Eq)]
pub enum TemplateElement {
    Text(Token),
    Expr(ExprElement),
    Node(Node),
}

/// A parsed template.
#[derive(Debug, PartialEq, Eq)]
pub struct Template {
    pub elements: Vec<TemplateElement>,
    /// The variables the template reads, each name once.
    pub used_vars: Vec<Token>,
}

/// Whether `t` is the piece `t.start_index..t.end_index` of `source`, with the
/// line and column of its start.
pub open spec fn token_in(t: Token, source: Seq<char>) -> bool {
    &&& t.start_index <= t.end_index <= source.len()
    &&& t.content@ == source.subrange(t.start_index as int, t.end_index as int)
    &&& t.line == line_at(source, t.start_index as int)
    &&& t.col == col_at(source, t.start_index as int)
}

/// Whether no two tokens of `ts` name the same thing.
pub open spec fn names_distinct(ts: Seq<Token>) -> bool {
    forall|i: int, j: int| 0 <= i < j < ts.len() ==> #[trigger] ts[i].content@ != #[trigger] ts[j].content@
}

/// Whether some token of `ts` has the name `name`.
pub open spec fn has_name(ts: Seq<Token>, name: Seq<char>) -> bool {
    exists|k: int| 0 <= k < ts.len() && (#[trigger] ts[k]).content@ == name
}

/// `acc` followed by the tokens of `from`, in order, whose name is neither
/// in `exclude` nor already among the tokens kept before them.
pub open spec fn with_new_names(acc: Seq<Token>, from: Seq<Token>, exclude: Seq<Token>) -> Seq<
    Token,
>
    decreases from.len(),
{
    if from.len() == 0 {
        acc
    } else {
        let kept = with_new_names(acc, from.drop_last(), exclude);
        let t = from.last();
        if has_name(kept, t.content@) || has_name(exclude, t.content@) {
            kept
        } else {
            kept.push(t)
        }
    }
}

/// Adding new names loses no name: every name already in `acc` stays, and
/// every name of `from` that `exclude` does not hold ends up in the result.
pub proof fn lemma_with_new_names_covers(acc: Seq<Token>, from: Seq<Token>, exclude: Seq<Token>)
    ensures
        forall|name: Seq<char>| has_name(acc, name) ==> #[trigger] has_name(
            with_new_names(acc, from, exclude),
            name,
        ),
        forall|k: int|
            0 <= k < from.len() && !has_name(exclude, (#[trigger] from[k]).content@) ==> has_name(
                with_new_names(acc, from, exclude),
                from[k].content@,
            ),
    decreases from.len(),
{
    if from.len() > 0 {
        let p = from.drop_last();
        lemma_with_new_names_covers(acc, p, exclude);
        let kept = with_new_names(acc, p, exclude);
        let t = from.last();
        let r = with_new_names(acc, from, exclude);
        assert forall|name: Seq<char>| has_name(kept, name) implies has_name(r, name) by {
            if !(has_name(kept, t.content@) || has_name(exclude, t.content@)) {
                let j = choose|j: int| 0 <= j < kept.len() && (#[trigger] kept[j]).content@ == name;
                assert(r[j] == kept[j]);
            }
        }
        assert forall|k: int|
            0 <= k < from.len() && !has_name(exclude, (#[trigger] from[k]).content@) implies has_name(
            r,
            from[k].content@,
        ) by {
            if k < p.len() {
                assert(from[k] == p[k]);
                assert(has_name(kept, p[k].content@));
            } else if !has_name(kept, t.content@) {
                assert(r[kept.len() as int] == t);
            }
        }
    }
}

/// Every token `with_new_names` gives is one of `acc` before it, or one of
/// `from` after them.
pub proof fn lemma_with_new_names_from(acc: Seq<Token>, from: Seq<Token>, exclude: Seq<Token>)
    ensures
        with_new_names(acc, from, exclude).len() >= acc.len(),
        forall|m: int| 0 <= m < acc.len() ==> #[trigger] with_new_names(acc, from, exclude)[m] == acc[m],
        forall|m: int|
            acc.len() <= m < with_new_names(acc, from, exclude).len() ==> exists|j: int|
                0 <= j < from.len() && #[trigger] with_new_names(acc, from, exclude)[m] == from[j],
    decreases from.len(),
{
    if from.len() > 0 {
        let p = from.drop_last();
        lemma_with_new_names_from(acc, p, exclude);
        let kept = with_new_names(acc, p, exclude);
        let r = with_new_names(acc, from, exclude);
        assert forall|m: int| 0 <= m < acc.len() implies #[trigger] r[m] == acc[m] by {
            assert(kept[m] == acc[m]);
        }
        assert forall|m: int| acc.len() <= m < r.len() implies exists|j: int|
            0 <= j < from.len() && #[trigger] r[m] == from[j] by {
            if m < kept.len() {
                let j = choose|j: int| 0 <= j < p.len() && #[trigger] kept[m] == p[j];
                assert(r[m] == kept[m]);
                assert(from[j] == p[j]);
            } else {
                assert(r[m] == from[from.len() - 1]);
            }
        }
    }
}

/// A copy of `t`.
pub(crate) fn copy_token(t: &Token) -> (r: Token)
    ensures
        r == *t,
{
    Token {
        content: t.content.clone(),
        start_index: t.start_index,
        end_index: t.end_index,
        line: t.line,
        col: t.col,
    }
}

/// Whether every token of `ts` is a piece of `source`.
pub open spec fn tokens_in(ts: Seq<Token>, source: Seq<char>) -> bool {
    forall|i: int| 0 <= i < ts.len() ==> token_in(#[trigger] ts[i], source)
}

/// Whether every token of an attribute is a piece of `s`.
pub open spec fn attr_in(a: TagAttr, s: Seq<char>) -> bool {
    &&& token_in(a.key, s)
    &&& (a.value matches Some(v) ==> token_in(v, s))
    &&& tokens_in(a.used_vars@, s)
}

/// Whether every token of a start tag is a piece of `s`.
pub open spec fn start_tag_in(t: StartTag, s: Seq<char>) -> bool {
    &&& token_in(t.token, s)
    &&& token_in(t.name, s)
    &&& forall|i: int| 0 <= i < t.attrs@.len() ==> attr_in(#[trigger] t.attrs@[i], s)
}

/// Whether every token of an element (and of its body) is a piece of `s`.
pub open spec fn element_in(e: TemplateElement, s: Seq<char>) -> bool
    decreases e, 0nat,
{
    match e {
        TemplateElement::Text(t) => token_in(t, s),
        TemplateElement::Expr(x) => {
            &&& token_in(x.token, s)
            &&& token_in(x.expr, s)
            &&& tokens_in(x.used_vars@, s)
        },
        TemplateElement::Node(n) => {
            &&& start_tag_in(n.start_tag, s)
            &&& (n.end_tag matches Some(et) ==> token_in(et.token, s) && token_in(et.name, s))
            &&& tokens_in(n.used_vars@, s)
            &&& tokens_in(n.introduced_vars@, s)
            &&& match n.body {
                Some(b) => template_in(b, s),
                None => true,
            }
        },
    }
}

/// Whether every token of every element of `es` is a piece of `s`.
pub open spec fn elements_in(es: Seq<TemplateElement>, s: Seq<char>) -> bool
    decreases es, 0nat,
{
    es.len() > 0 ==> {
        &&& elements_in(es.subrange(0, es.len() - 1), s)
        &&& element_in(es[es.len() - 1], s)
    }
}

/// Whether every token of a template is a piece of `s`.
pub open spec fn template_in(t: Template, s: Seq<char>) -> bool
    decreases t, 0nat,
{
    elements_in(t.elements@, s) && tokens_in(t.used_vars@, s)
}

/// Appending an element keeps every element a piece of `s`.
pub proof fn lemma_elements_push(es: Seq<TemplateElement>, e: TemplateElement, s: Seq<char>)
    requires
        elements_in(es, s),
        element_in(e, s),
    ensures
        elements_in(es.push(e), s),
{
    assert(es.push(e).subrange(0, es.len() as int) =~= es);
}

/// Where an element starts in the source.
pub open spec fn element_start(e: TemplateElement) -> int {
    match e {
        TemplateElement::Text(t) => t.start_index as int,
        TemplateElement::Expr(x) => x.token.start_index as int,
        TemplateElement::Node(n) => n.start_tag.token.start_index as int,
    }
}

/// Where an element ends in the source: after its end tag, or after its
/// start tag when it has none.
pub open spec fn element_end(e: TemplateElement) -> int {
    match e {
        TemplateElement::Text(t) => t.end_index as int,
        TemplateElement::Expr(x) => x.token.end_index as int,
        TemplateElement::Node(n) => match n.end_tag {
            Some(et) => et.token.end_index as int,
            None => n.start_tag.token.end_index as int,
        },
    }
}

/// Whether an element is laid out as written: it is not empty; an
/// interpolation's expression is what lies between its `{{` and `}}`; a
/// node's name follows its `<`, and the node either has an end tag of the
/// same name and a body that covers exactly what lies between its start tag
/// and its end tag, or has neither.
pub open spec fn element_laid_out(e: TemplateElement) -> bool
    decreases e, 0nat,
{
    match e {
        TemplateElement::Text(t) => t.start_index < t.end_index,
        TemplateElement::Expr(x) => {
            &&& x.token.start_index < x.token.end_index
            &&& x.expr.start_index == x.token.start_index + 2
            &&& x.expr.end_index + 2 == x.token.end_index
        },
        TemplateElement::Node(n) => {
            &&& n.start_tag.token.start_index < n.start_tag.token.end_index
            &&& n.start_tag.name.start_index == n.start_tag.token.start_index + 1
            &&& match n.body {
                Some(b) => n.end_tag matches Some(et) && et.name.start_index == et.token.start_index
                    + 2 && et.name.content@ == n.start_tag.name.content@ && template_covers(
                    b,
                    n.start_tag.token.end_index as int,
                    et.token.start_index as int,
                ),
                None => n.end_tag is None,
            }
        },
    }
}

/// Whether the elements of `es` cover the source from `from` to `to`, one
/// right after the other, each laid out as written.
pub open spec fn elements_cover(es: Seq<TemplateElement>, from: int, to: int) -> bool
    decreases es, 0nat,
{
    if es.len() == 0 {
        from == to
    } else {
        let last = es[es.len() - 1];
        &&& elements_cover(es.subrange(0, es.len() - 1), from, element_start(last))
        &&& element_laid_out(last)
        &&& element_end(last) == to
    }
}

/// Whether the elements of `t` cover the source from `from` to `to`.
pub open spec fn template_covers(t: Template, from: int, to: int) -> bool
    decreases t, 0nat,
{
    elements_cover(t.elements@, from, to)
}

/// Appending an element that starts where the others end extends what they
/// cover up to its end.
pub proof fn lemma_cover_push(es: Seq<TemplateElement>, e: TemplateElement, from: int)
    requires
        elements_cover(es, from, element_start(e)),
        element_laid_out(e),
    ensures
        elements_cover(es.push(e), from, element_end(e)),
{
    assert(es.push(e).subrange(0, es.len() as int) =~= es);
}

/// The text of an element as written: its text, or its start tag, body and
/// end tag.
pub open spec fn element_text(e: TemplateElement) -> Seq<char>
    decreases e, 0nat,
{
    match e {
        TemplateElement::Text(t) => t.content@,
        TemplateElement::Expr(x) => x.token.content@,
        TemplateElement::Node(n) => n.start_tag.token.content@ + body_text_of(n.body)
            + end_text_of(n.end_tag),
    }
}

/// The text of an optional body.
pub open spec fn body_text_of(b: Option<Template>) -> Seq<char>
    decreases b, 0nat,
{
    match b {
        Some(t) => template_text(t),
        None => Seq::empty(),
    }
}

/// The text of an optional end tag.
pub open spec fn end_text_of(e: Option<EndTag>) -> Seq<char> {
    match e {
        Some(et) => et.token.content@,
        None => Seq::empty(),
    }
}

/// The text of the elements of `es`, one after the other.
pub open spec fn elements_text(es: Seq<TemplateElement>) -> Seq<char>
    decreases es, 0nat,
{
    if es.len() == 0 {
        Seq::empty()
    } else {
        elements_text(es.subrange(0, es.len() - 1)) + element_text(es[es.len() - 1])
    }
}

/// The text of a template as written.
pub open spec fn template_text(t: Template) -> Seq<char>
    decreases t, 0nat,
{
    elements_text(t.elements@)
}

/// Element `i` of a list of pieces of `s` is a piece of `s`.
pub proof fn lemma_element_in_at(es: Seq<TemplateElement>, s: Seq<char>, i: int)
    requires
        elements_in(es, s),
        0 <= i < es.len(),
    ensures
        element_in(es[i], s),
    decreases es.len(),
{
    if i < es.len() - 1 {
        lemma_element_in_at(es.subrange(0, es.len() - 1), s, i);
    }
}

/// An element laid out as written in `s` reads, as written, the piece of
/// `s` it covers.
proof fn lemma_element_text(e: TemplateElement, s: Seq<char>)
    requires
        element_in(e, s),
        element_laid_out(e),
    ensures
        0 <= element_start(e) <= element_end(e) <= s.len(),
        element_text(e) == s.subrange(element_start(e), element_end(e)),
    decreases e, 1nat,
{
    match e {
        TemplateElement::Text(t) => {},
        TemplateElement::Expr(x) => {},
        TemplateElement::Node(n) => {
            let a = n.start_tag.token.start_index as int;
            let b = n.start_tag.token.end_index as int;
            match n.body {
                Some(body) => {
                    let et = n.end_tag->Some_0;
                    let c = et.token.start_index as int;
                    let d = et.token.end_index as int;
                    assert(decreases_to!(e => body.elements@));
                    lemma_elements_text(body.elements@, s, b, c);
                    assert(s.subrange(a, b) + s.subrange(b, c) + s.subrange(c, d) =~= s.subrange(
                        a,
                        d,
                    ));
                },
                None => {
                    assert(s.subrange(a, b) + Seq::<char>::empty() + Seq::<char>::empty() =~= s.subrange(a, b));
                },
            }
        },
    }
}

/// Elements that cover `from..to` of `s`, each a piece of `s`, read, as
/// written, that piece of `s`.
proof fn lemma_elements_text(es: Seq<TemplateElement>, s: Seq<char>, from: int, to: int)
    requires
        elements_in(es, s),
        elements_cover(es, from, to),
        0 <= from <= s.len(),
    ensures
        from <= to <= s.len(),
        elements_text(es) == s.subrange(from, to),
    decreases es, 0nat,
{
    if es.len() == 0 {
        assert(s.subrange(from, to) =~= Seq::<char>::empty());
    } else {
        let n = es.len() - 1;
        let last = es[n];
        lemma_element_in_at(es, s, n);
        assert(decreases_to!(es => es.subrange(0, n)));
        lemma_elements_text(es.subrange(0, n), s, from, element_start(last));
        lemma_element_text(last, s);
        assert(s.subrange(from, element_start(last)) + s.subrange(element_start(last), to)
            =~= s.subrange(from, to));
    }
}

/// A template whose elements cover all of `source`, each a piece of it,
/// written out one after the other gives back `source`: parsing loses and
/// adds nothing.
pub proof fn lemma_template_text_is_source(t: Template, source: Seq<char>)
    requires
        template_in(t, source),
        template_covers(t, 0, source.len() as int),
    ensures
        template_text(t) == source,
{
    lemma_elements_text(t.elements@, source, 0, source.len() as int);
    assert(source.subrange(0, source.len() as int) =~= source);
}

} // verus!
