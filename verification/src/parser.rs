//! The template parser: HTML-like tags, `{{ expr }}` interpolations and text.
//!
//! Tags whose name starts with `c-` are components or built-in tags; an
//! attribute whose key starts with `c-` is dynamic: its value is an
//! expression in the template's language, or, when it is written as markup
//! (it starts with `<` followed by a letter or `>`, and ends with `>`), a
//! nested template. `<c-raw>` keeps its content as literal text.

use vstd::prelude::*;

use crate::ast::{
    attr_in, copy_token, has_name, lemma_with_new_names_covers, lemma_with_new_names_from, with_new_names, element_end, element_in, element_laid_out, element_start, elements_cover,
    elements_in, lemma_cover_push, lemma_element_in_at, lemma_elements_push, names_distinct, template_covers,
    template_in, token_in, tokens_in, AttrKind, EndTag, ExprElement, Node, StartTag, TagAttr, Template, TemplateElement,
    Token,
};
use crate::error::ParseError;
use crate::lang::lang::{Lang, LangImpl, MAX_EXPR_LEN};
use crate::lang::python::{all_plain_names, loop_split, operator_chain, padded_name};
use crate::compiler::attrs_read;
use crate::text::{
    chars_have_at, col_at, decimal, has_prefix, has_suffix, line_at, line_col_table, owned,
    push_decimal, push_str, str_to_chars, substring,
};

verus! {

/// The longest template source (in characters) the parser accepts (a
/// machine limit, as for expressions).
pub const MAX_TEMPLATE_LEN: usize = MAX_EXPR_LEN;

/// The source being parsed, with the line and column of every index.
struct Src {
    chars: Vec<char>,
    lines: Vec<usize>,
    cols: Vec<usize>,
    lang: Lang,
}

spec fn src_wf(p: &Src) -> bool {
    &&& p.chars@.len() <= MAX_TEMPLATE_LEN
    &&& p.lines@.len() == p.chars@.len() + 1
    &&& p.cols@.len() == p.chars@.len() + 1
    &&& forall|i: int| 0 <= i <= p.chars@.len() ==> p.lines@[i] == line_at(p.chars@, i)
    &&& forall|i: int| 0 <= i <= p.chars@.len() ==> p.cols@[i] == col_at(p.chars@, i)
}

/// The token `chars[s..e]`.
fn tok(p: &Src, s: usize, e: usize) -> (t: Token)
    requires
        src_wf(p),
        s <= e <= p.chars@.len(),
    ensures
        token_in(t, p.chars@),
        t.start_index == s,
        t.end_index == e,
{
    Token {
        content: substring(&p.chars, s, e),
        start_index: s,
        end_index: e,
        line: p.lines[s],
        col: p.cols[s],
    }
}

/// The start of the message of a parse error at index `at` of `s`:
/// `Parse error at line L, column C: `.
pub open spec fn error_prefix(s: Seq<char>, at: int) -> Seq<char> {
    "Parse error at line "@ + decimal(line_at(s, at)) + ", column "@ + decimal(col_at(s, at))
        + ": "@
}

/// Whether `e` points at an index of `s`, and its message starts by naming
/// the line and column of that index.
pub open spec fn error_located(e: ParseError, s: Seq<char>) -> bool {
    &&& e.start_index == e.end_index
    &&& e.end_index <= s.len()
    &&& has_prefix(e.message@, error_prefix(s, e.start_index as int))
}

/// A parse error at index `at`, its message naming the line and column.
fn error_at(p: &Src, at: usize, message: &str) -> (r: ParseError)
    requires
        src_wf(p),
    ensures
        error_located(r, p.chars@),
        r.start_index == (if at <= p.chars@.len() {
            at as int
        } else {
            p.chars@.len() as int
        }),
        r.message@ == error_prefix(p.chars@, r.start_index as int) + message@,
{
    let at = if at <= p.chars.len() {
        at
    } else {
        p.chars.len()
    };
    let mut m = owned("Parse error at line ");
    push_decimal(&mut m, p.lines[at]);
    push_str(&mut m, ", column ");
    push_decimal(&mut m, p.cols[at]);
    push_str(&mut m, ": ");
    let ghost prefix = m@;
    push_str(&mut m, message);
    proof {
        assert(prefix == error_prefix(p.chars@, at as int));
        assert(m@.subrange(0, prefix.len() as int) =~= prefix);
    }
    ParseError { message: m, start_index: at, end_index: at }
}

/// A parse error about the tag named `chars[ns..ne]`: `before` + name + `after`.
fn error_named(p: &Src, at: usize, before: &str, ns: usize, ne: usize, after: &str) -> (r: ParseError)
    requires
        src_wf(p),
        ns <= ne <= p.chars@.len(),
    ensures
        error_located(r, p.chars@),
{
    let mut m = owned(before);
    let name = substring(&p.chars, ns, ne);
    push_str(&mut m, name.as_str());
    push_str(&mut m, after);
    error_at(p, at, m.as_str())
}

/// Whether `c` is whitespace between the parts of a tag.
pub open spec fn ws_char(c: char) -> bool {
    c == ' ' || c == '\t' || c == '\n' || c == '\r'
}

fn is_ws(c: char) -> (r: bool)
    ensures
        r == ws_char(c),
{
    c == ' ' || c == '\t' || c == '\n' || c == '\r'
}

/// Whether `c` is an ASCII letter.
pub open spec fn is_letter(c: char) -> bool {
    ('a' <= c && c <= 'z') || ('A' <= c && c <= 'Z')
}

/// Whether `s` holds no markup: no `{{`, and no `<` followed by a letter
/// or `/`. Such a template is all text.
pub open spec fn is_plain_text(s: Seq<char>) -> bool {
    forall|k: int|
        0 <= k < s.len() - 1 ==> !(#[trigger] s[k] == '{' && s[k + 1] == '{') && !(s[k] == '<' && (
        s[k + 1] == '/' || is_letter(s[k + 1])))
}

/// Whether every variable an element reports (the variables it reads,
/// those it introduces, and those of its attributes and of its body) is a
/// name that is not a keyword.
pub open spec fn element_names_ok(e: TemplateElement) -> bool
    decreases e, 0nat,
{
    match e {
        TemplateElement::Text(_) => true,
        TemplateElement::Expr(x) => all_plain_names(x.used_vars@),
        TemplateElement::Node(n) => {
            &&& all_plain_names(n.used_vars@)
            &&& all_plain_names(n.introduced_vars@)
            &&& forall|k: int|
                0 <= k < n.start_tag.attrs@.len() ==> all_plain_names(
                    (#[trigger] n.start_tag.attrs@[k]).used_vars@,
                )
            &&& match n.body {
                Some(b) => template_names_ok(b),
                None => true,
            }
        },
    }
}

/// Whether every variable the elements of `es` report is a name.
pub open spec fn elements_names_ok(es: Seq<TemplateElement>) -> bool
    decreases es, 0nat,
{
    es.len() > 0 ==> {
        &&& elements_names_ok(es.subrange(0, es.len() - 1))
        &&& element_names_ok(es[es.len() - 1])
    }
}

/// Whether every variable a template reports is a name.
pub open spec fn template_names_ok(t: Template) -> bool
    decreases t, 0nat,
{
    elements_names_ok(t.elements@) && all_plain_names(t.used_vars@)
}

proof fn lemma_names_ok_push(es: Seq<TemplateElement>, e: TemplateElement)
    requires
        elements_names_ok(es),
        element_names_ok(e),
    ensures
        elements_names_ok(es.push(e)),
{
    assert(es.push(e).subrange(0, es.len() as int) =~= es);
}

proof fn lemma_names_ok_at(es: Seq<TemplateElement>, i: int)
    requires
        elements_names_ok(es),
        0 <= i < es.len(),
    ensures
        element_names_ok(es[i]),
    decreases es.len(),
{
    if i < es.len() - 1 {
        lemma_names_ok_at(es.subrange(0, es.len() - 1), i);
    }
}

/// The variables node `n` reads: those its attributes read, then those its
/// body reads that it does not introduce itself, each name once, in the
/// order in which they are first read.
pub open spec fn node_read(n: Node) -> Seq<Token> {
    let attrs = attrs_read(n.start_tag.attrs@);
    match n.body {
        Some(b) => with_new_names(attrs, elements_read(b.elements@), n.introduced_vars@),
        None => attrs,
    }
}

/// Whether every node of an element, at every depth, reports as the
/// variables it reads those `node_read` gives, and every body those its
/// elements read.
pub open spec fn element_vars_ok(e: TemplateElement) -> bool
    decreases e, 0nat,
{
    match e {
        TemplateElement::Node(n) => {
            &&& n.used_vars@ == node_read(n)
            &&& match n.body {
                Some(b) => template_vars_ok(b),
                None => true,
            }
        },
        _ => true,
    }
}

/// Whether every element of `es` reports its variables as `element_vars_ok`
/// says.
pub open spec fn elements_vars_ok(es: Seq<TemplateElement>) -> bool
    decreases es, 0nat,
{
    es.len() > 0 ==> {
        &&& elements_vars_ok(es.subrange(0, es.len() - 1))
        &&& element_vars_ok(es[es.len() - 1])
    }
}

/// Whether a template reports as its variables those its elements read, and
/// so does every node and body in it.
pub open spec fn template_vars_ok(t: Template) -> bool
    decreases t, 0nat,
{
    elements_vars_ok(t.elements@) && t.used_vars@ == elements_read(t.elements@)
}

proof fn lemma_vars_ok_push(es: Seq<TemplateElement>, e: TemplateElement)
    requires
        elements_vars_ok(es),
        element_vars_ok(e),
    ensures
        elements_vars_ok(es.push(e)),
{
    assert(es.push(e).subrange(0, es.len() as int) =~= es);
}

/// Every variable an attribute of a list reads is named among those the
/// list reads.
pub proof fn lemma_attrs_read_covers(attrs: Seq<TagAttr>)
    ensures
        forall|k: int, j: int|
            0 <= k < attrs.len() && 0 <= j < attrs[k].used_vars@.len() ==> has_name(
                attrs_read(attrs),
                (#[trigger] attrs[k].used_vars@[j]).content@,
            ),
    decreases attrs.len(),
{
    if attrs.len() > 0 {
        let p = attrs.drop_last();
        lemma_attrs_read_covers(p);
        let from = attrs.last().used_vars@;
        lemma_with_new_names_covers(attrs_read(p), from, Seq::empty());
        assert forall|k: int, j: int|
            0 <= k < attrs.len() && 0 <= j < attrs[k].used_vars@.len() implies has_name(
            attrs_read(attrs),
            (#[trigger] attrs[k].used_vars@[j]).content@,
        ) by {
            if k < p.len() {
                assert(attrs[k] == p[k]);
                assert(has_name(attrs_read(p), p[k].used_vars@[j].content@));
            } else {
                assert(!has_name(Seq::<Token>::empty(), from[j].content@));
            }
        }
    }
}

/// What a node reads, whatever its tag: every variable any of its
/// attributes reads, and every variable its body reads that it does not
/// introduce itself.
pub proof fn lemma_node_read_covers(n: Node)
    ensures
        forall|k: int, j: int|
            0 <= k < n.start_tag.attrs@.len() && 0 <= j < n.start_tag.attrs@[k].used_vars@.len()
                ==> has_name(
                node_read(n),
                (#[trigger] n.start_tag.attrs@[k].used_vars@[j]).content@,
            ),
        n.body matches Some(b) ==> forall|m: int|
            0 <= m < elements_read(b.elements@).len() && !has_name(
                n.introduced_vars@,
                (#[trigger] elements_read(b.elements@)[m]).content@,
            ) ==> has_name(node_read(n), elements_read(b.elements@)[m].content@),
{
    let attrs = attrs_read(n.start_tag.attrs@);
    lemma_attrs_read_covers(n.start_tag.attrs@);
    if let Some(b) = n.body {
        lemma_with_new_names_covers(attrs, elements_read(b.elements@), n.introduced_vars@);
    }
}

/// Where the first `}}` at or after `k` stands in `s`, if anywhere.
pub open spec fn find_close(s: Seq<char>, k: int) -> Option<int>
    decreases s.len() - k,
{
    if k < 0 || k + 2 > s.len() {
        None
    } else if s[k] == '}' && s[k + 1] == '}' {
        Some(k)
    } else {
        find_close(s, k + 1)
    }
}

/// A `}}` found at or after `k` stands there.
pub proof fn lemma_find_close(s: Seq<char>, k: int)
    ensures
        find_close(s, k) matches Some(j) ==> k <= j && j + 2 <= s.len() && s[j] == '}' && s[j + 1]
            == '}',
    decreases s.len() - k,
{
    if 0 <= k && k + 2 <= s.len() && !(s[k] == '}' && s[k + 1] == '}') {
        lemma_find_close(s, k + 1);
    }
}

/// Whether `s`, from `i` on, is text and `{{ name }}` interpolations: it
/// holds no tag, and each `{{` is closed by the next `}}` with a Python name
/// (whitespace around it allowed) in between.
pub open spec fn names_template_from(s: Seq<char>, i: int) -> bool
    decreases s.len() - i,
{
    if i < 0 || i >= s.len() {
        true
    } else if i + 1 < s.len() && s[i] == '{' && s[i + 1] == '{' {
        match find_close(s, i + 2) {
            Some(j) => {
                proof {
                    lemma_find_close(s, i + 2);
                }
                &&& exists|a: int, b: int| #[trigger] padded_name(s.subrange(i + 2, j), a, b)
                &&& names_template_from(s, j + 2)
            },
            None => false,
        }
    } else if i + 1 < s.len() && s[i] == '<' && (s[i + 1] == '/' || is_letter(s[i + 1])) {
        false
    } else {
        names_template_from(s, i + 1)
    }
}

/// Text that opens neither an interpolation nor a tag moves the reading of a
/// template of text and `{{ name }}` interpolations one character on.
proof fn lemma_names_step(s: Seq<char>, i: int)
    requires
        names_template_from(s, i),
        0 <= i < s.len(),
        i + 2 <= s.len() ==> s.subrange(i, i + 2) != "{{"@,
        i + 2 <= s.len() ==> s.subrange(i, i + 2) != "</"@,
        !(i + 1 < s.len() && s[i] == '<' && is_letter(s[i + 1])),
    ensures
        names_template_from(s, i + 1),
{
    reveal_strlit("{{");
    reveal_strlit("</");
    if i + 1 < s.len() && s[i] == '{' && s[i + 1] == '{' {
        assert(s.subrange(i, i + 2) =~= "{{"@);
    }
    if i + 1 < s.len() && s[i] == '<' && s[i + 1] == '/' {
        assert(s.subrange(i, i + 2) =~= "</"@);
    }
}

/// A template of text and `{{ name }}` interpolations holds no `</` and no
/// start tag.
proof fn lemma_names_no_tag(s: Seq<char>, i: int)
    requires
        names_template_from(s, i),
        0 <= i,
        i + 1 < s.len(),
        s[i] == '<',
    ensures
        s[i + 1] != '/',
        !is_letter(s[i + 1]),
{
}

/// The two characters of `s` at `i`, when `s[i..i + 2]` is `w`.
proof fn lemma_pair_at(s: Seq<char>, i: int, w: Seq<char>)
    requires
        0 <= i,
        i + 2 <= s.len(),
        w.len() == 2,
        s.subrange(i, i + 2) == w,
    ensures
        s[i] == w[0],
        s[i + 1] == w[1],
{
    assert(s.subrange(i, i + 2)[0] == s[i]);
    assert(s.subrange(i, i + 2)[1] == s[i + 1]);
}

fn is_alpha(c: char) -> (r: bool)
    ensures
        r == is_letter(c),
{
    ('a' <= c && c <= 'z') || ('A' <= c && c <= 'Z')
}

/// Whether `c` may stand in a tag name.
pub open spec fn tag_name_char(c: char) -> bool {
    is_letter(c) || ('0' <= c && c <= '9') || c == '-' || c == '_' || c == ':' || c == '.'
}

fn is_tag_name_char(c: char) -> (r: bool)
    ensures
        r == tag_name_char(c),
{
    is_alpha(c) || ('0' <= c && c <= '9') || c == '-' || c == '_' || c == ':' || c == '.'
}

/// Whether `chars[i..end]` starts with `s`.
fn at_str(p: &Src, i: usize, end: usize, s: &str) -> (r: bool)
    requires
        src_wf(p),
        i <= end <= p.chars@.len(),
    ensures
        r == (i + s@.len() <= end && p.chars@.subrange(i as int, i + s@.len()) == s@),
{
    let w = str_to_chars(s);
    if w.len() > end - i {
        return false;
    }
    let r = chars_have_at(&p.chars, i, s);
    proof {
        assert(p.chars@.subrange(i as int, i + s@.len()) =~= p.chars@.skip(i as int).subrange(
            0,
            s@.len() as int,
        ));
    }
    r
}

/// Whether an element or component tag opens at `i`.
fn at_open_tag(p: &Src, i: usize, end: usize) -> (r: bool)
    requires
        src_wf(p),
        i <= end <= p.chars@.len(),
    ensures
        r == (i + 1 < end && p.chars@[i as int] == '<' && is_letter(p.chars@[i + 1])),
{
    i + 1 < end && p.chars[i] == '<' && is_alpha(p.chars[i + 1])
}

/// Whether `chars[s..e]` is exactly `w`.
fn range_is(p: &Src, s: usize, e: usize, w: &str) -> (r: bool)
    requires
        src_wf(p),
        s <= e <= p.chars@.len(),
    ensures
        r == (p.chars@.subrange(s as int, e as int) == w@),
{
    let wc = str_to_chars(w);
    if e - s != wc.len() {
        proof {
            if p.chars@.subrange(s as int, e as int) == w@ {
                assert(p.chars@.subrange(s as int, e as int).len() == w@.len());
            }
        }
        return false;
    }
    at_str(p, s, e, w)
}

/// Whether `name` is that of an HTML void element, which has no body and no
/// end tag.
pub open spec fn void_element_name(name: Seq<char>) -> bool {
    ||| name == "area"@
    ||| name == "base"@
    ||| name == "br"@
    ||| name == "col"@
    ||| name == "embed"@
    ||| name == "hr"@
    ||| name == "img"@
    ||| name == "input"@
    ||| name == "link"@
    ||| name == "meta"@
    ||| name == "param"@
    ||| name == "source"@
    ||| name == "track"@
    ||| name == "wbr"@
}

/// Whether the tag named `chars[s..e]` is an HTML void element.
fn is_void_element(p: &Src, s: usize, e: usize) -> (r: bool)
    requires
        src_wf(p),
        s <= e <= p.chars@.len(),
    ensures
        r == void_element_name(p.chars@.subrange(s as int, e as int)),
{
    range_is(p, s, e, "area") || range_is(p, s, e, "base") || range_is(p, s, e, "br") || range_is(
        p,
        s,
        e,
        "col",
    ) || range_is(p, s, e, "embed") || range_is(p, s, e, "hr") || range_is(p, s, e, "img")
        || range_is(p, s, e, "input") || range_is(p, s, e, "link") || range_is(p, s, e, "meta")
        || range_is(p, s, e, "param") || range_is(p, s, e, "source") || range_is(p, s, e, "track")
        || range_is(p, s, e, "wbr")
}

/// Tokens of `rel`, which are pieces of `chars[base..lim]`, moved to the
/// coordinates of the whole source.
fn shift_tokens(p: &Src, base: usize, lim: usize, rel: Vec<Token>) -> (r: Vec<Token>)
    requires
        src_wf(p),
        base <= lim <= p.chars@.len(),
        tokens_in(rel@, p.chars@.subrange(base as int, lim as int)),
    ensures
        tokens_in(r@, p.chars@),
        r@.len() == rel@.len(),
        forall|j: int|
            0 <= j < r@.len() ==> (#[trigger] r@[j]).start_index == base + rel@[j].start_index
                && r@[j].end_index == base + rel@[j].end_index && r@[j].content@ == rel@[j].content@,
        all_plain_names(rel@) ==> all_plain_names(r@),
{
    let ghost sub = p.chars@.subrange(base as int, lim as int);
    let mut out: Vec<Token> = Vec::new();
    let mut k: usize = 0;
    while k < rel.len()
        invariant
            src_wf(p),
            base <= lim <= p.chars@.len(),
            sub == p.chars@.subrange(base as int, lim as int),
            tokens_in(rel@, sub),
            k <= rel@.len(),
            tokens_in(out@, p.chars@),
            out@.len() == k,
            forall|j: int|
                0 <= j < k ==> (#[trigger] out@[j]).content@ == rel@[j].content@ && out@[j].start_index
                    == base + rel@[j].start_index && out@[j].end_index == base + rel@[j].end_index,
        decreases rel@.len() - k,
    {
        let t = &rel[k];
        proof {
            assert(token_in(rel@[k as int], sub));
        }
        let s = base + t.start_index;
        let e = base + t.end_index;
        let nt = Token {
            content: t.content.clone(),
            start_index: s,
            end_index: e,
            line: p.lines[s],
            col: p.cols[s],
        };
        proof {
            assert(sub.subrange(t.start_index as int, t.end_index as int) =~= p.chars@.subrange(
                s as int,
                e as int,
            ));
        }
        out.push(nt);
        k = k + 1;
    }
    out
}

/// Appends to `acc` copies of the tokens of `from` whose name is neither in
/// `acc` nor in `exclude`.
fn push_new_vars(acc: &mut Vec<Token>, from: &Vec<Token>, exclude: &Vec<Token>, Ghost(s): Ghost<
    Seq<char>,
>)
    requires
        tokens_in(old(acc)@, s),
        tokens_in(from@, s),
        names_distinct(old(acc)@),
    ensures
        final(acc)@ == with_new_names(old(acc)@, from@, exclude@),
        tokens_in(final(acc)@, s),
        names_distinct(final(acc)@),
        all_plain_names(old(acc)@) && all_plain_names(from@) ==> all_plain_names(final(acc)@),
{
    let ghost acc0 = acc@;
    let ghost plain = all_plain_names(old(acc)@) && all_plain_names(from@);
    let mut i: usize = 0;
    while i < from.len()
        invariant
            tokens_in(from@, s),
            tokens_in(acc@, s),
            names_distinct(acc@),
            i <= from@.len(),
            acc0 == old(acc)@,
            acc@ == with_new_names(acc0, from@.take(i as int), exclude@),
            plain == (all_plain_names(old(acc)@) && all_plain_names(from@)),
            plain ==> all_plain_names(acc@),
        decreases from@.len() - i,
    {
        let t = &from[i];
        let mut seen = false;
        let mut j: usize = 0;
        while j < acc.len() && !seen
            invariant
                j <= acc@.len(),
                seen ==> has_name(acc@, t.content@),
                !seen ==> forall|k: int| 0 <= k < j ==> acc@[k].content@ != t.content@,
            decreases acc@.len() - j,
        {
            if acc[j].content == t.content {
                seen = true;
            }
            j = j + 1;
        }
        proof {
            if !seen {
                assert(j == acc@.len());
            }
        }
        let ghost in_acc = seen;
        let mut j2: usize = 0;
        while j2 < exclude.len() && !seen
            invariant
                j2 <= exclude@.len(),
                in_acc ==> seen,
                in_acc <==> has_name(acc@, t.content@),
                seen ==> has_name(acc@, t.content@) || has_name(exclude@, t.content@),
                !seen ==> forall|k: int| 0 <= k < j2 ==> exclude@[k].content@ != t.content@,
            decreases exclude@.len() - j2,
        {
            if exclude[j2].content == t.content {
                seen = true;
            }
            j2 = j2 + 1;
        }
        proof {
            let ft = from@.take(i + 1);
            assert(ft.drop_last() =~= from@.take(i as int));
            assert(ft.last() == from@[i as int]);
            if !seen {
                assert(j2 == exclude@.len());
                assert(!has_name(exclude@, t.content@));
            }
        }
        if !seen {
            proof {
                assert(token_in(from@[i as int], s));
            }
            let ghost before = acc@;
            acc.push(copy_token(t));
            proof {
                assert forall|a: int, b: int| 0 <= a < b < acc@.len() implies #[trigger] acc@[a].content@
                    != #[trigger] acc@[b].content@ by {
                    if b < before.len() {
                        assert(acc@[a] == before[a] && acc@[b] == before[b]);
                    } else {
                        assert(acc@[a] == before[a]);
                    }
                }
            }
        }
        i = i + 1;
    }
    proof {
        assert(from@.take(from@.len() as int) =~= from@);
    }
}

/// The variables the elements of `es` read, each name once, in the order in
/// which they are first read.
pub open spec fn elements_read(es: Seq<TemplateElement>) -> Seq<Token>
    decreases es.len(),
{
    if es.len() == 0 {
        Seq::empty()
    } else {
        let kept = elements_read(es.drop_last());
        match es.last() {
            TemplateElement::Text(_) => kept,
            TemplateElement::Expr(x) => with_new_names(kept, x.used_vars@, Seq::empty()),
            TemplateElement::Node(n) => with_new_names(kept, n.used_vars@, Seq::empty()),
        }
    }
}

/// The variables element `e` reads: those of an interpolation or of a node,
/// whatever its tag; none for text.
pub open spec fn element_reads(e: TemplateElement) -> Seq<Token> {
    match e {
        TemplateElement::Text(_) => Seq::empty(),
        TemplateElement::Expr(x) => x.used_vars@,
        TemplateElement::Node(n) => n.used_vars@,
    }
}

/// Every variable that some element reads, whatever the element, is named
/// among the variables of the elements; and each of those is one that some
/// element reads.
pub proof fn lemma_elements_read_covers(es: Seq<TemplateElement>)
    ensures
        forall|k: int, j: int|
            0 <= k < es.len() && 0 <= j < element_reads(es[k]).len() ==> has_name(
                elements_read(es),
                (#[trigger] element_reads(#[trigger] es[k])[j]).content@,
            ),
        forall|m: int|
            0 <= m < elements_read(es).len() ==> exists|k: int, j: int|
                0 <= k < es.len() && 0 <= j < element_reads(es[k]).len() && #[trigger] elements_read(
                    es,
                )[m] == element_reads(es[k])[j],
    decreases es.len(),
{
    if es.len() > 0 {
        let p = es.drop_last();
        lemma_elements_read_covers(p);
        let kept = elements_read(p);
        let last = es.last();
        let from = element_reads(last);
        assert(elements_read(es) == with_new_names(kept, from, Seq::empty()));
        lemma_with_new_names_covers(kept, from, Seq::empty());
        lemma_with_new_names_from(kept, from, Seq::empty());
        assert forall|k: int, j: int|
            0 <= k < es.len() && 0 <= j < element_reads(es[k]).len() implies has_name(
            elements_read(es),
            (#[trigger] element_reads(#[trigger] es[k])[j]).content@,
        ) by {
            if k < p.len() {
                assert(es[k] == p[k]);
                assert(has_name(kept, element_reads(p[k])[j].content@));
            } else {
                assert(!has_name(Seq::<Token>::empty(), from[j].content@));
            }
        }
        assert forall|m: int| 0 <= m < elements_read(es).len() implies exists|k: int, j: int|
            0 <= k < es.len() && 0 <= j < element_reads(es[k]).len() && #[trigger] elements_read(
                es,
            )[m] == element_reads(es[k])[j] by {
            let r = elements_read(es);
            if m < kept.len() {
                assert(r[m] == kept[m]);
                let (k, j) = choose|k: int, j: int|
                    0 <= k < p.len() && 0 <= j < element_reads(p[k]).len() && #[trigger] kept[m]
                        == element_reads(p[k])[j];
                assert(p[k] == es[k]);
            } else {
                let j = choose|j: int| 0 <= j < from.len() && r[m] == from[j];
                assert(es[es.len() - 1] == last);
            }
        }
    }
}

/// The variables the elements of `es` read, each name once.
fn element_vars(es: &Vec<TemplateElement>, Ghost(s): Ghost<Seq<char>>) -> (r: Vec<Token>)
    requires
        elements_in(es@, s),
    ensures
        r@ == elements_read(es@),
        tokens_in(r@, s),
        names_distinct(r@),
        elements_names_ok(es@) ==> all_plain_names(r@),
{
    let mut acc: Vec<Token> = Vec::new();
    let none: Vec<Token> = Vec::new();
    proof {
        assert(none@ =~= Seq::<Token>::empty());
        assert(es@.take(0) =~= Seq::<TemplateElement>::empty());
    }
    let mut i: usize = 0;
    while i < es.len()
        invariant
            elements_in(es@, s),
            i <= es@.len(),
            tokens_in(acc@, s),
            names_distinct(acc@),
            none@ == Seq::<Token>::empty(),
            acc@ == elements_read(es@.take(i as int)),
            elements_names_ok(es@) ==> all_plain_names(acc@),
        decreases es@.len() - i,
    {
        proof {
            lemma_element_in_at(es@, s, i as int);
            if elements_names_ok(es@) {
                lemma_names_ok_at(es@, i as int);
            }
            let et = es@.take(i + 1);
            assert(et.drop_last() =~= es@.take(i as int));
            assert(et.last() == es@[i as int]);
        }
        match &es[i] {
            TemplateElement::Text(_) => {},
            TemplateElement::Expr(x) => {
                push_new_vars(&mut acc, &x.used_vars, &none, Ghost(s));
            },
            TemplateElement::Node(n) => {
                push_new_vars(&mut acc, &n.used_vars, &none, Ghost(s));
            },
        }
        i = i + 1;
    }
    proof {
        assert(es@.take(es@.len() as int) =~= es@);
    }
    acc
}

// ---------------------------------------------------------------------------
// The grammar of element markup
// ---------------------------------------------------------------------------
//
// The spec functions below describe, over the whole source `cs`, the markup
// the parser reads: text, `{{ expr }}` interpolations, and elements and
// components `<name attr...>body</name>` whose attributes are boolean
// (`key`), static (`key="value"`), dynamic (`c-key="expr"`, and `cond` of
// `<c-if>`/`<c-elif>`), or the `each="target in iterable"` of `<c-for>`;
// each `expr` is a Python name, or names joined by operators of one
// character such as `a + b`, with whitespace around it allowed. Each returns where the
// piece it reads ends, or `None` when the source is not of that form there.

/// Whether the characters `a`, `b` stand at `j`.
pub open spec fn pair_at(cs: Seq<char>, j: int, a: char, b: char) -> bool {
    0 <= j && j + 2 <= cs.len() && cs[j] == a && cs[j + 1] == b
}

/// Whether a start tag (`<` and a letter) opens at `j`.
pub open spec fn tag_opens_at(cs: Seq<char>, j: int) -> bool {
    0 <= j && j + 1 < cs.len() && cs[j] == '<' && is_letter(cs[j + 1])
}

/// Where the tag name starting at `j` ends.
pub open spec fn name_end(cs: Seq<char>, j: int) -> int
    decreases cs.len() - j,
{
    if 0 <= j < cs.len() && tag_name_char(cs[j]) {
        name_end(cs, j + 1)
    } else {
        j
    }
}

/// Where the whitespace starting at `j` ends.
pub open spec fn ws_end(cs: Seq<char>, j: int) -> int
    decreases cs.len() - j,
{
    if 0 <= j < cs.len() && ws_char(cs[j]) {
        ws_end(cs, j + 1)
    } else {
        j
    }
}

/// Whether `cs[j]` may stand in an attribute key.
pub open spec fn key_char_at(cs: Seq<char>, j: int) -> bool {
    !ws_char(cs[j]) && cs[j] != '=' && cs[j] != '>' && !(cs[j] == '/' && j + 1 < cs.len() && cs[j
        + 1] == '>')
}

/// Where the attribute key starting at `j` ends.
pub open spec fn key_end(cs: Seq<char>, j: int) -> int
    decreases cs.len() - j,
{
    if 0 <= j < cs.len() && key_char_at(cs, j) {
        key_end(cs, j + 1)
    } else {
        j
    }
}

/// Where the next `q` at or after `j` stands (the end of `cs` if none).
pub open spec fn quote_end(cs: Seq<char>, j: int, q: char) -> int
    decreases cs.len() - j,
{
    if 0 <= j < cs.len() && cs[j] != q {
        quote_end(cs, j + 1, q)
    } else {
        j
    }
}

/// Where the text starting before `j` ends: at the next `{{`, `</` or start
/// tag, or at the end of `cs`.
pub open spec fn text_end(cs: Seq<char>, j: int) -> int
    decreases cs.len() - j,
{
    if 0 <= j < cs.len() && !pair_at(cs, j, '{', '{') && !pair_at(cs, j, '<', '/')
        && !tag_opens_at(cs, j) {
        text_end(cs, j + 1)
    } else {
        j
    }
}

/// Whether `key` names a dynamic attribute: it starts with `c-`.
pub open spec fn dynamic_key(key: Seq<char>) -> bool {
    key.len() >= 2 && key[0] == 'c' && key[1] == '-'
}

/// The attribute starting at `i` of a start tag named `name`: where it ends.
/// Its value, when it has one, is quoted; a dynamic value is a Python name,
/// or names joined by operators of one character (with whitespace around it
/// allowed); `each` of `<c-for>` is `target in iterable`, two Python names.
pub open spec fn g_attr(cs: Seq<char>, i: int, name: Seq<char>, py: bool) -> Option<int> {
    let ke = key_end(cs, i);
    if ke <= i {
        None
    } else if !(ke < cs.len() && cs[ke] == '=') {
        Some(ke)
    } else if ke + 1 >= cs.len() || !(cs[ke + 1] == '"' || cs[ke + 1] == '\'') {
        None
    } else {
        let c = quote_end(cs, ke + 2, cs[ke + 1]);
        let key = cs.subrange(i, ke);
        let is_if = name == "c-if"@ || name == "c-elif"@;
        if c >= cs.len() {
            None
        } else if name == "c-for"@ && key == "each"@ {
            if py && exists|t: int| #[trigger] loop_split(cs.subrange(ke + 2, c), t) {
                Some(c + 1)
            } else {
                None
            }
        } else if dynamic_key(key) || (is_if && key == "cond"@) {
            if py && markup_span(cs, ke + 2, c) is None && ((exists|a: int, b: int|
                #[trigger] padded_name(cs.subrange(ke + 2, c), a, b)) || operator_chain(
                cs.subrange(ke + 2, c),
            )) {
                Some(c + 1)
            } else {
                None
            }
        } else {
            Some(c + 1)
        }
    }
}

/// Whether `a` is the attribute the grammar reads at `k` in a start tag named
/// `name`: its key, its quoted value if it has one, and its kind (boolean,
/// static, or an expression for a dynamic value or a loop's `each`).
pub open spec fn attr_follows(cs: Seq<char>, a: TagAttr, k: int, name: Seq<char>) -> bool {
    let ke = key_end(cs, k);
    let key = cs.subrange(k, ke);
    let is_if = name == "c-if"@ || name == "c-elif"@;
    let computed = (name == "c-for"@ && key == "each"@) || dynamic_key(key) || (is_if && key
        == "cond"@);
    &&& a.key.start_index == k
    &&& a.key.end_index == ke
    &&& if !(ke < cs.len() && cs[ke] == '=') {
        a.value is None && a.kind == AttrKind::Boolean
    } else {
        &&& a.value matches Some(v) && v.start_index == ke + 2 && v.end_index == quote_end(
            cs,
            ke + 2,
            cs[ke + 1],
        )
        &&& a.quoted
        &&& a.kind == (if computed {
            AttrKind::Expression
        } else {
            AttrKind::Static
        })
    }
}

/// The attributes `attrs` of a start tag named `name` whose name ends at
/// `ne`, each what the grammar reads after the whitespace that follows the
/// one before: where the last of them ends.
pub open spec fn attrs_chain(cs: Seq<char>, ne: int, attrs: Seq<TagAttr>, name: Seq<char>, py: bool) -> Option<int>
    decreases attrs.len(),
{
    if attrs.len() == 0 {
        Some(ne)
    } else {
        match attrs_chain(cs, ne, attrs.drop_last(), name, py) {
            Some(p) => {
                let k = ws_end(cs, p);
                if attr_follows(cs, attrs.last(), k, name) {
                    g_attr(cs, k, name, py)
                } else {
                    None
                }
            },
            None => None,
        }
    }
}

/// The attributes of a start tag named `name`, from `i` on: where the `>`
/// (or the `/>`, flagged) that closes the tag stands.
pub open spec fn g_attrs(cs: Seq<char>, i: int, name: Seq<char>, py: bool) -> Option<(int, bool)>
    decreases cs.len() - i,
{
    let k = ws_end(cs, i);
    if !(0 <= i <= k < cs.len()) {
        None
    } else if cs[k] == '>' {
        Some((k, false))
    } else if cs[k] == '/' {
        if k + 1 < cs.len() && cs[k + 1] == '>' {
            Some((k, true))
        } else {
            None
        }
    } else if k == i {
        None
    } else {
        match g_attr(cs, k, name, py) {
            Some(q) => if k < q <= cs.len() {
                g_attrs(cs, q, name, py)
            } else {
                None
            },
            None => None,
        }
    }
}

/// The end tag `</name>` at `q`: where it ends.
pub open spec fn g_end(cs: Seq<char>, q: int, name: Seq<char>) -> Option<int> {
    let ns = q + 2;
    let ne = name_end(cs, ns);
    let k = ws_end(cs, ne);
    if !(0 <= q && ns < ne) || !is_letter(cs[ns]) || k >= cs.len() || cs[k] != '>'
        || cs.subrange(ns, ne) != name {
        None
    } else {
        Some(k + 1)
    }
}

/// The element or component whose start tag opens at `i`: where it ends.
/// A self-closing tag or a void element ends with its start tag; any other
/// (but `<c-raw>`) has a body and an end tag.
pub open spec fn g_node(cs: Seq<char>, i: int, py: bool) -> Option<int>
    decreases cs.len() - i, 1nat,
{
    let ne = name_end(cs, i + 1);
    let name = cs.subrange(i + 1, ne);
    if !(0 <= i) || name == "c-raw"@ {
        None
    } else {
        match g_attrs(cs, ne, name, py) {
            Some((gt, true)) => Some(gt + 2),
            Some((gt, false)) => if void_element_name(name) {
                Some(gt + 1)
            } else if i < gt + 1 <= cs.len() {
                match g_elems(cs, gt + 1, py) {
                    Some(q) => if pair_at(cs, q, '<', '/') {
                        g_end(cs, q, name)
                    } else {
                        None
                    },
                    None => None,
                }
            } else {
                None
            },
            None => None,
        }
    }
}

/// Markup from `i` on: where it stops, at the end of `cs` or at an end tag
/// `</` that it does not open.
pub open spec fn g_elems(cs: Seq<char>, i: int, py: bool) -> Option<int>
    decreases cs.len() - i, 2nat,
{
    if !(0 <= i < cs.len()) {
        Some(i)
    } else if pair_at(cs, i, '{', '{') {
        match find_close(cs, i + 2) {
            Some(c) => {
                proof {
                    lemma_find_close(cs, i + 2);
                }
                if py && ((exists|a: int, b: int| #[trigger] padded_name(cs.subrange(i + 2, c), a, b))
                    || operator_chain(cs.subrange(i + 2, c))) {
                    g_elems(cs, c + 2, py)
                } else {
                    None
                }
            },
            None => None,
        }
    } else if pair_at(cs, i, '<', '/') {
        Some(i)
    } else if tag_opens_at(cs, i) {
        match g_node(cs, i, py) {
            Some(q) => if i < q <= cs.len() {
                g_elems(cs, q, py)
            } else {
                None
            },
            None => None,
        }
    } else {
        let j = text_end(cs, i + 1);
        if i < j <= cs.len() {
            g_elems(cs, j, py)
        } else {
            None
        }
    }
}

/// Whether `cs` as a whole is element markup of this grammar; `py` is whether
/// its expressions are Python.
pub open spec fn element_markup(cs: Seq<char>, py: bool) -> bool {
    g_elems(cs, 0, py) == Some(cs.len() as int)
}

/// Whether element `e` is the piece the grammar reads where it starts: text
/// up to the next `{{`, `</` or start tag; an interpolation up to the `}}`
/// that closes it; or an element or component read by `g_node`, whose
/// attributes are those the grammar reads in its start tag, in order, and
/// whose body, when it has one, holds elements that are again what the
/// grammar reads.
pub open spec fn element_follows(cs: Seq<char>, e: TemplateElement, py: bool) -> bool
    decreases e, 0nat,
{
    match e {
        TemplateElement::Text(t) => {
            let s = t.start_index as int;
            &&& !pair_at(cs, s, '{', '{')
            &&& !pair_at(cs, s, '<', '/')
            &&& !tag_opens_at(cs, s)
            &&& t.end_index == text_end(cs, s + 1)
        },
        TemplateElement::Expr(x) => {
            let s = x.token.start_index as int;
            &&& pair_at(cs, s, '{', '{')
            &&& find_close(cs, s + 2) == Some(x.token.end_index - 2)
        },
        TemplateElement::Node(n) => {
            let s = n.start_tag.token.start_index as int;
            let ne = name_end(cs, s + 1);
            &&& tag_opens_at(cs, s)
            &&& g_node(cs, s, py) == Some(element_end(TemplateElement::Node(n)))
            &&& attrs_chain(cs, ne, n.start_tag.attrs@, cs.subrange(s + 1, ne), py) is Some
            &&& match n.body {
                Some(b) => elements_follow(cs, b.elements@, py),
                None => true,
            }
        },
    }
}

/// Whether each element of `es` is what the grammar reads where it starts.
pub open spec fn elements_follow(cs: Seq<char>, es: Seq<TemplateElement>, py: bool) -> bool
    decreases es, 0nat,
{
    es.len() > 0 ==> {
        &&& elements_follow(cs, es.subrange(0, es.len() - 1), py)
        &&& element_follows(cs, es[es.len() - 1], py)
    }
}

proof fn lemma_follow_push(cs: Seq<char>, es: Seq<TemplateElement>, e: TemplateElement, py: bool)
    requires
        elements_follow(cs, es, py),
        element_follows(cs, e, py),
    ensures
        elements_follow(cs, es.push(e), py),
{
    assert(es.push(e).subrange(0, es.len() as int) =~= es);
}

/// `cs[j..j + 2]` is `w` just when the two characters of `w` stand at `j`.
proof fn lemma_pair_iff(cs: Seq<char>, j: int, w: Seq<char>)
    requires
        0 <= j,
        w.len() == 2,
    ensures
        (j + 2 <= cs.len() && cs.subrange(j, j + 2) == w) == pair_at(cs, j, w[0], w[1]),
{
    if pair_at(cs, j, w[0], w[1]) {
        assert(cs.subrange(j, j + 2) =~= w);
    }
    if j + 2 <= cs.len() && cs.subrange(j, j + 2) == w {
        lemma_pair_at(cs, j, w);
    }
}

// ---------------------------------------------------------------------------
// Expressions
// ---------------------------------------------------------------------------

/// Whether every token of `ts` lies within `s..e`.
pub open spec fn spans_within(ts: Seq<Token>, s: int, e: int) -> bool {
    forall|k: int|
        0 <= k < ts.len() ==> s <= (#[trigger] ts[k]).start_index && ts[k].end_index <= e
}

proof fn lemma_prefix_of_concat(a: Seq<char>, b: Seq<char>)
    ensures
        has_prefix(a + b, a),
{
    assert((a + b).subrange(0, a.len() as int) =~= a);
}

/// Parse the expression `chars[s..e]` and return the variables it reads,
/// which the language implementation reports.
fn expr_vars(p: &Src, s: usize, e: usize) -> (r: Result<Vec<Token>, ParseError>)
    requires
        src_wf(p),
        s <= e <= p.chars@.len(),
    ensures
        r matches Err(er) ==> error_located(er, p.chars@) && er.start_index == s && has_prefix(
            er.message@,
            error_prefix(p.chars@, s as int) + "invalid expression: "@,
        ),
        r matches Ok(v) ==> tokens_in(v@, p.chars@) && all_plain_names(v@) && spans_within(
            v@,
            s as int,
            e as int,
        ),
        p.lang != Lang::Python ==> r is Err,
        forall|a: int, b: int|
            p.lang == Lang::Python && #[trigger] padded_name(p.chars@.subrange(s as int, e as int), a, b)
                ==> (r matches Ok(v) && v@.len() == 1 && v@[0].start_index == s + a
                && v@[0].end_index == s + b),
        forall|t: int|
            p.lang == Lang::Python && #[trigger] loop_split(p.chars@.subrange(s as int, e as int), t)
                ==> r is Ok,
        p.lang == Lang::Python && operator_chain(p.chars@.subrange(s as int, e as int)) ==> r is Ok,
{
    let text = substring(&p.chars, s, e);
    let lang = p.lang.to_lang_impl();
    let res = lang.parse_expression(text.as_str());
    match res {
        Ok(res) => {
            let v = shift_tokens(p, s, e, res.used_vars);
            proof {
                assert forall|k: int| 0 <= k < v@.len() implies s <= (#[trigger] v@[k]).start_index
                    && v@[k].end_index <= e by {
                    assert(token_in(res.used_vars@[k], text@));
                }
            }
            Ok(v)
        },
        Err(m) => {
            let mut msg = owned("invalid expression: ");
            push_str(&mut msg, m.as_str());
            let er = error_at(p, s, msg.as_str());
            proof {
                assert(er.message@ == (error_prefix(p.chars@, s as int) + "invalid expression: "@)
                    + m@);
                lemma_prefix_of_concat(error_prefix(p.chars@, s as int) + "invalid expression: "@, m@);
            }
            Err(er)
        },
    }
}

/// Parse the for-loop expression `chars[s..e]`: return its loop variables and
/// the variables its iterable reads.
fn forloop_vars(p: &Src, s: usize, e: usize) -> (r: Result<(Vec<Token>, Vec<Token>), ParseError>)
    requires
        src_wf(p),
        s <= e <= p.chars@.len(),
    ensures
        r matches Err(er) ==> error_located(er, p.chars@) && er.start_index == s && (has_prefix(
            er.message@,
            error_prefix(p.chars@, s as int) + "invalid for-loop expression: "@,
        ) || has_prefix(er.message@, error_prefix(p.chars@, s as int) + "invalid expression: "@)),
        r matches Ok((targets, used)) ==> tokens_in(targets@, p.chars@) && tokens_in(
            used@,
            p.chars@,
        ) && all_plain_names(targets@) && all_plain_names(used@) && spans_within(
            targets@,
            s as int,
            e as int,
        ) && names_distinct(used@) && exists|all: Seq<Token>|
            spans_within(all, s as int, e as int) && used@ == with_new_names(
                Seq::empty(),
                all,
                targets@,
            ),
        p.lang != Lang::Python ==> r is Err,
        forall|t: int|
            p.lang == Lang::Python && #[trigger] loop_split(p.chars@.subrange(s as int, e as int), t)
                ==> (r matches Ok((targets, used)) && targets@.len() == 1
                && targets@[0].start_index == s && targets@[0].end_index == s + t),
{
    let text = substring(&p.chars, s, e);
    let lang = p.lang.to_lang_impl();
    let targets = match lang.parse_forloop_expression(text.as_str()) {
        Ok(v) => {
            let ts = shift_tokens(p, s, e, v);
            proof {
                assert forall|k: int| 0 <= k < ts@.len() implies s <= (#[trigger] ts@[k]).start_index
                    && ts@[k].end_index <= e by {
                    assert(token_in(v@[k], text@));
                }
            }
            ts
        },
        Err(m) => {
            let mut msg = owned("invalid for-loop expression: ");
            push_str(&mut msg, m.as_str());
            let er = error_at(p, s, msg.as_str());
            proof {
                assert(er.message@ == (error_prefix(p.chars@, s as int)
                    + "invalid for-loop expression: "@) + m@);
                lemma_prefix_of_concat(
                    error_prefix(p.chars@, s as int) + "invalid for-loop expression: "@,
                    m@,
                );
            }
            return Err(er);
        },
    };
    let all = expr_vars(p, s, e)?;
    let mut used: Vec<Token> = Vec::new();
    let ghost empty = used@;
    push_new_vars(&mut used, &all, &targets, Ghost(p.chars@));
    proof {
        assert(empty =~= Seq::<Token>::empty());
    }
    Ok((targets, used))
}

/// Whether an interpolation `{{ name }}` that the parser can read stands at
/// `i`, in a template of text and such interpolations read up to its end.
spec fn names_interp_at(p: &Src, i: int, end: int) -> bool {
    &&& p.lang == Lang::Python
    &&& end == p.chars@.len()
    &&& i + 1 < end
    &&& p.chars@[i] == '{'
    &&& p.chars@[i + 1] == '{'
    &&& names_template_from(p.chars@, i)
}

/// Parse `{{ expr }}` starting at `i`.
fn parse_interpolation(p: &Src, i: usize, end: usize) -> (r: Result<(ExprElement, usize), ParseError>)
    requires
        src_wf(p),
        i + 2 <= end <= p.chars@.len(),
    ensures
        r matches Err(e) ==> error_located(e, p.chars@),
        r matches Ok((x, q)) ==> i < q <= end && token_in(x.token, p.chars@) && token_in(
            x.expr,
            p.chars@,
        ) && tokens_in(x.used_vars@, p.chars@) && x.token.start_index == i && x.token.end_index
            == q && x.expr.start_index == i + 2 && x.expr.end_index + 2 == q && all_plain_names(
            x.used_vars@,
        ),
        names_interp_at(p, i as int, end as int) ==> (r matches Ok((x, q)) && find_close(
            p.chars@,
            i + 2,
        ) == Some(q - 2)),
        end == p.chars@.len() && p.lang == Lang::Python ==> (find_close(p.chars@, i + 2) matches Some(
            c,
        ) ==> ((exists|a: int, b: int| #[trigger] padded_name(p.chars@.subrange(i + 2, c), a, b))
            || operator_chain(p.chars@.subrange(i + 2, c)) ==> (r matches Ok((x, q)) && q == c
            + 2))),
{
    let ghost ni = names_interp_at(p, i as int, end as int);
    let ghost s = p.chars@;
    let ghost fc = end == s.len() && find_close(s, i + 2) is Some;
    proof {
        if ni || fc {
            lemma_find_close(s, i + 2);
            reveal_strlit("}}");
        }
    }
    let mut j = i + 2;
    while j < end && !at_str(p, j, end, "}}")
        invariant
            src_wf(p),
            i + 2 <= j <= end <= p.chars@.len(),
            s == p.chars@,
            ni ==> fc,
            fc == (end == s.len() && find_close(s, i + 2) is Some),
            fc ==> end == s.len() && find_close(s, i + 2) == find_close(s, j as int),
            fc ==> find_close(s, j as int) is Some,
        decreases end - j,
    {
        proof {
            reveal_strlit("}}");
            if fc {
                assert(!(s[j as int] == '}' && s[j + 1] == '}')) by {
                    if j + 2 <= end && s[j as int] == '}' && s[j + 1] == '}' {
                        assert(s.subrange(j as int, j + 2) =~= "}}"@);
                    }
                }
            }
        }
        j = j + 1;
    }
    proof {
        reveal_strlit("}}");
        if fc {
            lemma_find_close(s, j as int);
            if j < end {
                lemma_pair_at(s, j as int, "}}"@);
            }
        }
    }
    if j >= end {
        return Err(error_at(p, i, "unclosed interpolation: '{{' without '}}'"));
    }
    proof {
        reveal_strlit("}}");
    }
    let used_vars = expr_vars(p, i + 2, j)?;
    let x = ExprElement { token: tok(p, i, j + 2), expr: tok(p, i + 2, j), used_vars };
    Ok((x, j + 2))
}

// ---------------------------------------------------------------------------
// Tags
// ---------------------------------------------------------------------------

/// Where `cs[s..e]` starts once leading whitespace is skipped.
pub open spec fn trim_start(cs: Seq<char>, s: int, e: int) -> int
    decreases e - s,
{
    if s < e && ws_char(cs[s]) {
        trim_start(cs, s + 1, e)
    } else {
        s
    }
}

/// Where `cs[s..e]` ends once trailing whitespace is dropped.
pub open spec fn trim_end(cs: Seq<char>, s: int, e: int) -> int
    decreases e - s,
{
    if s < e && ws_char(cs[e - 1]) {
        trim_end(cs, s, e - 1)
    } else {
        e
    }
}

/// The bounds `(ts, te)` of `cs[s..e]` with surrounding whitespace trimmed,
/// when what is left is markup: it starts with `<` followed by a letter or
/// `>`, and ends with `>`.
pub open spec fn markup_span(cs: Seq<char>, s: int, e: int) -> Option<(int, int)> {
    let ts = trim_start(cs, s, e);
    let te = trim_end(cs, ts, e);
    if te - ts >= 2 && cs[ts] == '<' && (is_letter(cs[ts + 1]) || cs[ts + 1] == '>') && cs[te
        - 1] == '>' {
        Some((ts, te))
    } else {
        None
    }
}

/// Whether the template written in `chars[s..e]` is markup: after trimming
/// whitespace it starts with `<` followed by a letter or `>`, and ends with `>`.
fn markup_bounds(p: &Src, s: usize, e: usize) -> (r: Option<(usize, usize)>)
    requires
        src_wf(p),
        s <= e <= p.chars@.len(),
    ensures
        r matches Some((ts, te)) ==> s <= ts && ts + 2 <= te && te <= e && markup_span(
            p.chars@,
            s as int,
            e as int,
        ) == Some((ts as int, te as int)),
        r is None <==> markup_span(p.chars@, s as int, e as int) is None,
{
    let ghost cs = p.chars@;
    let mut ts = s;
    while ts < e && is_ws(p.chars[ts])
        invariant
            src_wf(p),
            cs == p.chars@,
            s <= ts <= e <= p.chars@.len(),
            trim_start(cs, ts as int, e as int) == trim_start(cs, s as int, e as int),
        decreases e - ts,
    {
        ts = ts + 1;
    }
    let mut te = e;
    while te > ts && is_ws(p.chars[te - 1])
        invariant
            src_wf(p),
            cs == p.chars@,
            s <= ts <= te <= e <= p.chars@.len(),
            ts == trim_start(cs, s as int, e as int),
            trim_end(cs, ts as int, te as int) == trim_end(cs, ts as int, e as int),
        decreases te - ts,
    {
        te = te - 1;
    }
    proof {
        assert(te == trim_end(cs, ts as int, e as int));
    }
    if te - ts >= 2 && p.chars[ts] == '<' && (is_alpha(p.chars[ts + 1]) || p.chars[ts + 1] == '>')
        && p.chars[te - 1] == '>' {
        Some((ts, te))
    } else {
        None
    }
}

/// The part of `cs[s..e]` (trimmed to `cs[ts..te]`) that a nested template
/// is read from: inside the fragment `<>...</>`, or the whole value.
pub open spec fn nested_span(cs: Seq<char>, s: int, e: int, ts: int, te: int) -> (int, int) {
    if cs[ts + 1] == '>' {
        (ts + 2, te - 3)
    } else {
        (s, e)
    }
}

/// Parse the nested template written in `chars[s..e]` (a markup attribute
/// value) and return the variables it reads.
fn nested_template_vars(p: &Src, s: usize, e: usize, ts: usize, te: usize) -> (r: Result<
    Vec<Token>,
    ParseError,
>)
    requires
        src_wf(p),
        s <= ts,
        ts + 2 <= te <= e <= p.chars@.len(),
    ensures
        r matches Err(er) ==> error_located(er, p.chars@),
        p.chars@[ts + 1] == '>' && !(te - ts >= 5 && p.chars@.subrange(te - 3, te as int)
            == "</>"@) ==> r is Err,
        r matches Ok(v) ==> tokens_in(v@, p.chars@) && all_plain_names(v@) && exists|
            es: Seq<TemplateElement>,
        |
            elements_in(es, p.chars@) && #[trigger] elements_cover(
                es,
                nested_span(p.chars@, s as int, e as int, ts as int, te as int).0,
                nested_span(p.chars@, s as int, e as int, ts as int, te as int).1,
            ) && v@ == elements_read(es),
    decreases e - s, 4nat,
{
    proof {
        reveal_strlit("</>");
    }
    let (from, to) = if p.chars[ts + 1] == '>' {
        // A fragment `<>...</>`.
        if te - ts < 5 || !at_str(p, te - 3, te, "</>") {
            return Err(error_at(p, ts, "unclosed fragment: '<>' without '</>'"));
        }
        (ts + 2, te - 3)
    } else {
        (s, e)
    };
    let (es, q) = parse_elements(p, from, to)?;
    if q < to {
        return Err(error_at(p, q, "unexpected closing tag in nested template"));
    }
    let v = element_vars(&es, Ghost(p.chars@));
    proof {
        assert(nested_span(p.chars@, s as int, e as int, ts as int, te as int) == (
            from as int,
            to as int,
        ));
        assert(elements_cover(es@, from as int, to as int));
    }
    Ok(v)
}

/// Parse one attribute starting at `i` of a start tag named `chars[ns..ne]`.
/// Also returns the loop variables an `each` attribute of `<c-for>` introduces.
fn parse_attr(p: &Src, i: usize, end: usize, ns: usize, ne: usize) -> (r: Result<
    (TagAttr, Vec<Token>, usize),
    ParseError,
>)
    requires
        src_wf(p),
        i < end <= p.chars@.len(),
        ns <= ne <= p.chars@.len(),
    ensures
        r matches Err(e) ==> error_located(e, p.chars@),
        r matches Ok((a, introduced, q)) ==> i < q <= end && attr_in(a, p.chars@) && tokens_in(
            introduced@,
            p.chars@,
        ) && all_plain_names(a.used_vars@) && all_plain_names(introduced@),
        end == p.chars@.len() ==> (g_attr(
            p.chars@,
            i as int,
            p.chars@.subrange(ns as int, ne as int),
            p.lang == Lang::Python,
        ) matches Some(gq) ==> (r matches Ok((a, introduced, q)) && q == gq && attr_follows(
            p.chars@,
            a,
            i as int,
            p.chars@.subrange(ns as int, ne as int),
        ))),
    decreases end - i, 0nat,
{
    let ghost cs = p.chars@;
    let ks = i;
    let mut ke = i;
    while ke < end && !is_ws(p.chars[ke]) && p.chars[ke] != '=' && p.chars[ke] != '>' && !(
    p.chars[ke] == '/' && ke + 1 < end && p.chars[ke + 1] == '>')
        invariant
            src_wf(p),
            cs == p.chars@,
            i <= ke <= end <= p.chars@.len(),
            end == cs.len() ==> key_end(cs, ke as int) == key_end(cs, i as int),
        decreases end - ke,
    {
        ke = ke + 1;
    }
    if ke == ks {
        return Err(error_at(p, i, "expected an attribute name"));
    }
    let key = tok(p, ks, ke);
    if !(ke < end && p.chars[ke] == '=') {
        let a = TagAttr {
            key,
            value: None,
            kind: AttrKind::Boolean,
            quoted: false,
            used_vars: Vec::new(),
        };
        return Ok((a, Vec::new(), ke));
    }
    let v0 = ke + 1;
    if v0 >= end {
        return Err(error_at(p, ke, "expected an attribute value"));
    }
    let q0 = p.chars[v0];
    let (vs, ve, next, quoted) = if q0 == '"' || q0 == '\'' {
        let mut c = v0 + 1;
        while c < end && p.chars[c] != q0
            invariant
                src_wf(p),
                cs == p.chars@,
                v0 < c <= end <= p.chars@.len(),
                end == cs.len() ==> quote_end(cs, c as int, q0) == quote_end(cs, v0 + 1, q0),
            decreases end - c,
        {
            c = c + 1;
        }
        if c >= end {
            return Err(error_at(p, v0, "unclosed attribute value"));
        }
        (v0 + 1, c, c + 1, true)
    } else {
        let mut c = v0;
        while c < end && !is_ws(p.chars[c]) && p.chars[c] != '>' && !(p.chars[c] == '/' && c + 1
            < end && p.chars[c + 1] == '>')
            invariant
                src_wf(p),
                v0 <= c <= end <= p.chars@.len(),
            decreases end - c,
        {
            c = c + 1;
        }
        if c == v0 {
            return Err(error_at(p, v0, "expected an attribute value"));
        }
        (v0, c, c, false)
    };
    let value = tok(p, vs, ve);
    let dynamic = ke - ks >= 2 && p.chars[ks] == 'c' && p.chars[ks + 1] == '-';
    let is_for = range_is(p, ns, ne, "c-for");
    let is_if = range_is(p, ns, ne, "c-if") || range_is(p, ns, ne, "c-elif");
    if is_for && range_is(p, ks, ke, "each") {
        let (targets, used_vars) = forloop_vars(p, vs, ve)?;
        let a = TagAttr { key, value: Some(value), kind: AttrKind::Expression, quoted, used_vars };
        return Ok((a, targets, next));
    }
    if dynamic || (is_if && range_is(p, ks, ke, "cond")) {
        match markup_bounds(p, vs, ve) {
            Some((ts, te)) => {
                let used_vars = nested_template_vars(p, vs, ve, ts, te)?;
                let a = TagAttr {
                    key,
                    value: Some(value),
                    kind: AttrKind::Template,
                    quoted,
                    used_vars,
                };
                Ok((a, Vec::new(), next))
            },
            None => {
                let used_vars = expr_vars(p, vs, ve)?;
                let a = TagAttr {
                    key,
                    value: Some(value),
                    kind: AttrKind::Expression,
                    quoted,
                    used_vars,
                };
                Ok((a, Vec::new(), next))
            },
        }
    } else {
        let a = TagAttr {
            key,
            value: Some(value),
            kind: AttrKind::Static,
            quoted,
            used_vars: Vec::new(),
        };
        Ok((a, Vec::new(), next))
    }
}

/// Parse a start tag `<name attr...>` or `<name attr... />` at `pos`. Also
/// returns the loop variables it introduces.
fn parse_start_tag(p: &Src, pos: usize, end: usize) -> (r: Result<
    (StartTag, Vec<Token>, usize),
    ParseError,
>)
    requires
        src_wf(p),
        pos + 1 < end <= p.chars@.len(),
    ensures
        r matches Err(e) ==> error_located(e, p.chars@),
        r matches Ok((st, introduced, q)) ==> pos < q <= end && start_tag_ok(st, p.chars@, pos as int)
            && tokens_in(introduced@, p.chars@) && st.token.end_index == q && all_plain_names(
            introduced@,
        ) && forall|k: int|
            0 <= k < st.attrs@.len() ==> all_plain_names((#[trigger] st.attrs@[k]).used_vars@),
        end == p.chars@.len() ==> (g_attrs(
            p.chars@,
            name_end(p.chars@, pos + 1),
            p.chars@.subrange(pos + 1, name_end(p.chars@, pos + 1)),
            p.lang == Lang::Python,
        ) matches Some((gt, sc)) ==> (r matches Ok((st, introduced, q)) && q == gt + (if sc {
            2int
        } else {
            1int
        }) && st.self_closing == sc && st.name.end_index == name_end(p.chars@, pos + 1)
            && attrs_chain(
            p.chars@,
            name_end(p.chars@, pos + 1),
            st.attrs@,
            p.chars@.subrange(pos + 1, name_end(p.chars@, pos + 1)),
            p.lang == Lang::Python,
        ) is Some)),
    decreases end - pos, 1nat,
{
    let ghost cs = p.chars@;
    let ghost py = p.lang == Lang::Python;
    let ns = pos + 1;
    let mut ne = ns;
    while ne < end && is_tag_name_char(p.chars[ne])
        invariant
            src_wf(p),
            cs == p.chars@,
            ns <= ne <= end <= p.chars@.len(),
            end == cs.len() ==> name_end(cs, ne as int) == name_end(cs, ns as int),
        decreases end - ne,
    {
        ne = ne + 1;
    }
    proof {
        if end == cs.len() {
            assert(ne == name_end(cs, ne as int));
        }
    }
    let ghost nm = cs.subrange(ns as int, ne as int);
    let ghost gs = g_attrs(cs, ne as int, nm, py);
    let name = tok(p, ns, ne);
    let mut attrs: Vec<TagAttr> = Vec::new();
    let mut introduced: Vec<Token> = Vec::new();
    let mut i = ne;
    loop
        invariant
            src_wf(p),
            pos < ns <= ne <= i <= end <= p.chars@.len(),
            ns == pos + 1,
            forall|k: int| 0 <= k < attrs@.len() ==> attr_in(#[trigger] attrs@[k], p.chars@),
            tokens_in(introduced@, p.chars@),
            token_in(name, p.chars@),
            name.start_index == ns,
            name.end_index == ne,
            all_plain_names(introduced@),
            forall|k: int|
                0 <= k < attrs@.len() ==> all_plain_names((#[trigger] attrs@[k]).used_vars@),
            cs == p.chars@,
            py == (p.lang == Lang::Python),
            nm == cs.subrange(ns as int, ne as int),
            gs == g_attrs(cs, ne as int, nm, py),
            end == cs.len() ==> ne == name_end(cs, ns as int),
            end == cs.len() && gs is Some ==> g_attrs(cs, i as int, nm, py) == gs,
            end == cs.len() && gs is Some ==> attrs_chain(cs, ne as int, attrs@, nm, py) == Some(
                i as int,
            ),
        decreases end - i,
    {
        let before = i;
        while i < end && is_ws(p.chars[i])
            invariant
                src_wf(p),
                cs == p.chars@,
                before <= i <= end <= p.chars@.len(),
                end == cs.len() ==> ws_end(cs, i as int) == ws_end(cs, before as int),
            decreases end - i,
        {
            i = i + 1;
        }
        proof {
            if end == cs.len() {
                assert(ws_end(cs, i as int) == i);
                assert(ws_end(cs, before as int) == i);
            }
        }
        if i >= end {
            return Err(error_named(p, pos, "unclosed start tag <", ns, ne, ">"));
        }
        if p.chars[i] == '>' {
            let st = StartTag { token: tok(p, pos, i + 1), name, attrs, self_closing: false };
            return Ok((st, introduced, i + 1));
        }
        if p.chars[i] == '/' {
            if i + 1 < end && p.chars[i + 1] == '>' {
                let st = StartTag { token: tok(p, pos, i + 2), name, attrs, self_closing: true };
                return Ok((st, introduced, i + 2));
            }
            return Err(error_at(p, i, "unexpected '/' in start tag"));
        }
        if i == before {
            return Err(error_named(p, i, "invalid character in start tag <", ns, ne, ">"));
        }
        let (a, intro, q) = parse_attr(p, i, end, ns, ne)?;
        let ghost ga = a;
        let ghost before_attrs = attrs@;
        attrs.push(a);
        proof {
            assert(attrs@.drop_last() =~= before_attrs);
            assert(attrs@.last() == ga);
        }
        let mut k: usize = 0;
        while k < intro.len()
            invariant
                tokens_in(intro@, p.chars@),
                tokens_in(introduced@, p.chars@),
                k <= intro@.len(),
                all_plain_names(intro@),
                all_plain_names(introduced@),
            decreases intro@.len() - k,
        {
            proof {
                assert(token_in(intro@[k as int], p.chars@));
            }
            introduced.push(copy_token(&intro[k]));
            k = k + 1;
        }
        i = q;
    }
}

/// Whether a start tag found at `pos` is a piece of `s` starting there.
spec fn start_tag_ok(st: StartTag, s: Seq<char>, pos: int) -> bool {
    &&& token_in(st.token, s)
    &&& st.token.start_index == pos
    &&& token_in(st.name, s)
    &&& st.name.start_index == pos + 1
    &&& st.name.start_index <= st.name.end_index
    &&& forall|k: int| 0 <= k < st.attrs@.len() ==> attr_in(#[trigger] st.attrs@[k], s)
}

/// Parse an end tag `</name>` at `q`: its token and the end of its name.
fn parse_end_tag(p: &Src, q: usize, end: usize) -> (r: Result<(EndTag, usize), ParseError>)
    requires
        src_wf(p),
        q + 2 <= end <= p.chars@.len(),
    ensures
        r matches Err(e) ==> error_located(e, p.chars@),
        r matches Ok((et, next)) ==> q < next <= end && token_in(et.token, p.chars@) && token_in(
            et.name,
            p.chars@,
        ) && et.name.start_index == q + 2 && et.name.start_index <= et.name.end_index
            && et.token.start_index == q && et.token.end_index == next,
        ({
            let cs = p.chars@;
            let ne = name_end(cs, q + 2);
            let k = ws_end(cs, ne);
            end == cs.len() && q + 2 < ne && is_letter(cs[q + 2]) && k < cs.len() && cs[k] == '>'
        }) ==> (r matches Ok((et, next)) && et.name.end_index == name_end(p.chars@, q + 2)
            && next == ws_end(p.chars@, name_end(p.chars@, q + 2)) + 1),
{
    let ghost cs = p.chars@;
    let ns = q + 2;
    let mut ne = ns;
    while ne < end && is_tag_name_char(p.chars[ne])
        invariant
            src_wf(p),
            cs == p.chars@,
            ns <= ne <= end <= p.chars@.len(),
            end == cs.len() ==> name_end(cs, ne as int) == name_end(cs, ns as int),
        decreases end - ne,
    {
        ne = ne + 1;
    }
    if ne == ns || !is_alpha(p.chars[ns]) {
        return Err(error_at(p, q, "invalid end tag"));
    }
    let mut i = ne;
    while i < end && is_ws(p.chars[i])
        invariant
            src_wf(p),
            cs == p.chars@,
            ne <= i <= end <= p.chars@.len(),
            end == cs.len() ==> ws_end(cs, i as int) == ws_end(cs, ne as int),
        decreases end - i,
    {
        i = i + 1;
    }
    if i >= end {
        return Err(error_named(p, q, "unclosed end tag </", ns, ne, ">"));
    }
    if p.chars[i] != '>' {
        return Err(error_named(
            p,
            q,
            "end tag </",
            ns,
            ne,
            "> must not contain any attributes",
        ));
    }
    let et = EndTag { token: tok(p, q, i + 1), name: tok(p, ns, ne) };
    Ok((et, i + 1))
}

/// Parse an element or component at `pos` (where `<` and a letter stand).
fn parse_node(p: &Src, pos: usize, end: usize) -> (r: Result<(Node, usize), ParseError>)
    requires
        src_wf(p),
        pos + 1 < end <= p.chars@.len(),
    ensures
        r matches Err(e) ==> error_located(e, p.chars@),
        r matches Ok((n, q)) ==> pos < q <= end && element_in(TemplateElement::Node(n), p.chars@)
            && element_start(TemplateElement::Node(n)) == pos && element_end(
            TemplateElement::Node(n),
        ) == q && element_laid_out(TemplateElement::Node(n)) && element_names_ok(
            TemplateElement::Node(n),
        ),
        r matches Ok((n, _)) ==> element_vars_ok(TemplateElement::Node(n)),
        end == p.chars@.len() ==> (g_node(p.chars@, pos as int, p.lang == Lang::Python) matches Some(
            gq,
        ) ==> (r matches Ok((n, q)) && q == gq && match n.body {
            Some(b) => elements_follow(p.chars@, b.elements@, p.lang == Lang::Python),
            None => true,
        } && attrs_chain(
            p.chars@,
            name_end(p.chars@, pos + 1),
            n.start_tag.attrs@,
            p.chars@.subrange(pos + 1, name_end(p.chars@, pos + 1)),
            p.lang == Lang::Python,
        ) is Some)),
    decreases end - pos, 2nat,
{
    let (start_tag, introduced, after) = parse_start_tag(p, pos, end)?;
    let ns = start_tag.name.start_index;
    let ne = start_tag.name.end_index;
    let mut attr_vars: Vec<Token> = Vec::new();
    let none: Vec<Token> = Vec::new();
    let mut k: usize = 0;
    proof {
        assert(none@ =~= Seq::<Token>::empty());
        assert(start_tag.attrs@.take(0) =~= Seq::<TagAttr>::empty());
        assert(attr_vars@ =~= Seq::<Token>::empty());
    }
    while k < start_tag.attrs.len()
        invariant
            start_tag_ok(start_tag, p.chars@, pos as int),
            tokens_in(attr_vars@, p.chars@),
            names_distinct(attr_vars@),
            all_plain_names(attr_vars@),
            forall|j: int|
                0 <= j < start_tag.attrs@.len() ==> all_plain_names(
                    (#[trigger] start_tag.attrs@[j]).used_vars@,
                ),
            k <= start_tag.attrs@.len(),
            none@ == Seq::<Token>::empty(),
            attr_vars@ == attrs_read(start_tag.attrs@.take(k as int)),
        decreases start_tag.attrs@.len() - k,
    {
        proof {
            assert(attr_in(start_tag.attrs@[k as int], p.chars@));
            let at = start_tag.attrs@.take(k + 1);
            assert(at.drop_last() =~= start_tag.attrs@.take(k as int));
            assert(at.last() == start_tag.attrs@[k as int]);
        }
        push_new_vars(&mut attr_vars, &start_tag.attrs[k].used_vars, &none, Ghost(p.chars@));
        k = k + 1;
    }
    proof {
        assert(start_tag.attrs@.take(start_tag.attrs@.len() as int) =~= start_tag.attrs@);
    }
    if range_is(p, ns, ne, "c-raw") {
        if start_tag.self_closing {
            return Err(error_at(
                p,
                pos,
                "tag '<c-raw>' cannot be self-closing: close it with </c-raw>",
            ));
        }
        if start_tag.attrs.len() > 0 {
            return Err(error_at(
                p,
                pos,
                "Tag '<c-raw>' can only have the following attributes: (none)",
            ));
        }
        let mut j = after;
        while j < end && !at_str(p, j, end, "</c-raw>")
            invariant
                src_wf(p),
                after <= j <= end <= p.chars@.len(),
            decreases end - j,
        {
            j = j + 1;
        }
        if j >= end {
            return Err(error_at(p, pos, "unclosed tag <c-raw>"));
        }
        proof {
            reveal_strlit("</c-raw>");
            reveal_strlit("c-raw");
            assert(p.chars@.subrange(j + 2, j + 7) =~= p.chars@.subrange(j as int, j + 8).subrange(
                2,
                7,
            ));
            assert(p.chars@.subrange(j + 2, j + 7) =~= "c-raw"@);
        }
        let mut elements: Vec<TemplateElement> = Vec::new();
        if j > after {
            let t = TemplateElement::Text(tok(p, after, j));
            proof {
                lemma_elements_push(elements@, t, p.chars@);
                lemma_cover_push(elements@, t, after as int);
                lemma_names_ok_push(elements@, t);
            }
            elements.push(t);
        }
        proof {
            reveal_with_fuel(elements_read, 2);
            assert(elements_read(elements@) =~= Seq::<Token>::empty());
            assert(elements_vars_ok(elements@)) by {
                if elements@.len() > 0 {
                    assert(elements@.len() == 1 && elements@[0] is Text);
                    assert(elements@.subrange(0, 0) =~= Seq::<TemplateElement>::empty());
                    assert(elements_vars_ok(elements@.subrange(0, 0)));
                    assert(element_vars_ok(elements@[0]));
                }
            }
            assert(attrs_read(start_tag.attrs@) =~= Seq::<Token>::empty());
        }
        let body = Template { elements, used_vars: Vec::new() };
        let end_tag = EndTag { token: tok(p, j, j + 8), name: tok(p, j + 2, j + 7) };
        let n = Node {
            start_tag,
            end_tag: Some(end_tag),
            body: Some(body),
            used_vars: Vec::new(),
            introduced_vars: Vec::new(),
        };
        return Ok((n, j + 8));
    }
    if start_tag.self_closing || is_void_element(p, ns, ne) {
        let n = Node {
            start_tag,
            end_tag: None,
            body: None,
            used_vars: attr_vars,
            introduced_vars: introduced,
        };
        return Ok((n, after));
    }
    let (elements, q) = parse_elements(p, after, end)?;
    if q >= end || q + 2 > end {
        return Err(error_named(p, pos, "unclosed tag <", ns, ne, ">: parse error"));
    }
    let (end_tag, next) = parse_end_tag(p, q, end)?;
    let ens = end_tag.name.start_index;
    let ene = end_tag.name.end_index;
    if !(ene - ens == ne - ns && at_str(p, ens, ene, start_tag.name.content.as_str())) {
        let mut m = owned("Mismatched tags: expected </");
        push_str(&mut m, start_tag.name.content.as_str());
        push_str(&mut m, "> but found </");
        push_str(&mut m, end_tag.name.content.as_str());
        push_str(&mut m, ">");
        return Err(error_at(p, q, m.as_str()));
    }
    let body_vars = element_vars(&elements, Ghost(p.chars@));
    let mut used_vars = attr_vars;
    push_new_vars(&mut used_vars, &body_vars, &introduced, Ghost(p.chars@));
    let body = Template { elements, used_vars: body_vars };
    let n = Node {
        start_tag,
        end_tag: Some(end_tag),
        body: Some(body),
        used_vars,
        introduced_vars: introduced,
    };
    Ok((n, next))
}

/// Parse elements from `pos` up to `end`, stopping early at an end tag
/// `</`, whose position is returned.
fn parse_elements(p: &Src, pos: usize, end: usize) -> (r: Result<
    (Vec<TemplateElement>, usize),
    ParseError,
>)
    requires
        src_wf(p),
        pos <= end <= p.chars@.len(),
    ensures
        r matches Err(e) ==> error_located(e, p.chars@),
        r matches Ok((es, q)) ==> pos <= q <= end && elements_in(es@, p.chars@) && (q < end ==> q
            + 2 <= end) && elements_cover(es@, pos as int, q as int) && elements_names_ok(es@),
        r matches Ok((es, _)) ==> elements_vars_ok(es@),
        is_plain_text(p.chars@) ==> (r matches Ok((es, q)) && q == end && es@.len() == (if pos
            < end {
            1int
        } else {
            0int
        }) && (pos < end ==> es@[0] is Text)),
        p.lang == Lang::Python && end == p.chars@.len() && names_template_from(p.chars@, pos as int)
            ==> (r matches Ok((es, q)) && q == end && forall|k: int|
            0 <= k < es@.len() ==> !(#[trigger] es@[k] is Node)),
        end == p.chars@.len() ==> (g_elems(p.chars@, pos as int, p.lang == Lang::Python) matches Some(
            gq,
        ) ==> (r matches Ok((es, q)) && q == gq && elements_follow(
            p.chars@,
            es@,
            p.lang == Lang::Python,
        ))),
    decreases end - pos, 3nat,
{
    let ghost cs = p.chars@;
    let ghost py = p.lang == Lang::Python;
    let ghost ge = g_elems(cs, pos as int, py);
    proof {
        reveal_strlit("{{");
        reveal_strlit("</");
    }
    let ghost nt = p.lang == Lang::Python && end == p.chars@.len() && names_template_from(
        p.chars@,
        pos as int,
    );
    let mut es: Vec<TemplateElement> = Vec::new();
    let mut i = pos;
    while i < end
        invariant
            src_wf(p),
            pos <= i <= end <= p.chars@.len(),
            elements_in(es@, p.chars@),
            elements_cover(es@, pos as int, i as int),
            elements_names_ok(es@),
            elements_vars_ok(es@),
            is_plain_text(p.chars@) ==> (i == pos && es@.len() == 0) || (pos < i == end && es@.len()
                == 1 && es@[0] is Text),
            nt == (p.lang == Lang::Python && end == p.chars@.len() && names_template_from(
                p.chars@,
                pos as int,
            )),
            nt ==> names_template_from(p.chars@, i as int) && forall|k: int|
                0 <= k < es@.len() ==> !(#[trigger] es@[k] is Node),
            cs == p.chars@,
            py == (p.lang == Lang::Python),
            ge == g_elems(cs, pos as int, py),
            end == cs.len() && ge is Some ==> g_elems(cs, i as int, py) == ge,
            end == cs.len() && ge is Some ==> elements_follow(cs, es@, py),
        decreases end - i,
    {
        proof {
            reveal_strlit("{{");
            reveal_strlit("</");
            lemma_pair_iff(cs, i as int, "{{"@);
            lemma_pair_iff(cs, i as int, "</"@);
        }
        if at_str(p, i, end, "{{") {
            proof {
                reveal_strlit("{{");
                lemma_pair_at(p.chars@, i as int, "{{"@);
            }
            let (x, q) = parse_interpolation(p, i, end)?;
            let e = TemplateElement::Expr(x);
            proof {
                lemma_elements_push(es@, e, p.chars@);
                lemma_cover_push(es@, e, pos as int);
                lemma_names_ok_push(es@, e);
                lemma_vars_ok_push(es@, e);
                if end == cs.len() && ge is Some {
                    assert(element_follows(cs, e, py));
                    lemma_follow_push(cs, es@, e, py);
                }
            }
            es.push(e);
            i = q;
        } else if at_str(p, i, end, "</") {
            proof {
                reveal_strlit("</");
                lemma_pair_at(p.chars@, i as int, "</"@);
                if nt {
                    lemma_names_no_tag(p.chars@, i as int);
                }
            }
            return Ok((es, i));
        } else if at_open_tag(p, i, end) {
            proof {
                assert(!is_plain_text(p.chars@) || p.chars@[i as int] != '<');
                if nt {
                    lemma_names_no_tag(p.chars@, i as int);
                }
            }
            let (n, q) = parse_node(p, i, end)?;
            let e = TemplateElement::Node(n);
            proof {
                lemma_elements_push(es@, e, p.chars@);
                lemma_cover_push(es@, e, pos as int);
                lemma_names_ok_push(es@, e);
                lemma_vars_ok_push(es@, e);
                if end == cs.len() && ge is Some {
                    assert(element_follows(cs, e, py));
                    lemma_follow_push(cs, es@, e, py);
                }
            }
            es.push(e);
            i = q;
        } else {
            // The text runs up to the next interpolation or tag.
            proof {
                if nt {
                    lemma_names_step(p.chars@, i as int);
                }
            }
            let mut j = i + 1;
            loop
                invariant
                    src_wf(p),
                    i < j <= end <= p.chars@.len(),
                    nt ==> end == p.chars@.len() && names_template_from(p.chars@, j as int),
                    cs == p.chars@,
                    end == cs.len() ==> text_end(cs, j as int) == text_end(cs, i + 1),
                ensures
                    i < j <= end,
                    is_plain_text(p.chars@) ==> j == end,
                    nt ==> names_template_from(p.chars@, j as int),
                    end == cs.len() ==> j == text_end(cs, i + 1),
                decreases end - j,
            {
                proof {
                    reveal_strlit("{{");
                    reveal_strlit("</");
                    lemma_pair_iff(cs, j as int, "{{"@);
                    lemma_pair_iff(cs, j as int, "</"@);
                }
                if j >= end {
                    break;
                }
                if at_str(p, j, end, "{{") {
                    proof {
                        reveal_strlit("{{");
                        lemma_pair_at(p.chars@, j as int, "{{"@);
                    }
                    break;
                }
                if at_str(p, j, end, "</") {
                    proof {
                        reveal_strlit("</");
                        lemma_pair_at(p.chars@, j as int, "</"@);
                    }
                    break;
                }
                if at_open_tag(p, j, end) {
                    break;
                }
                proof {
                    if nt {
                        lemma_names_step(p.chars@, j as int);
                    }
                }
                j = j + 1;
            }
            let e = TemplateElement::Text(tok(p, i, j));
            proof {
                lemma_elements_push(es@, e, p.chars@);
                lemma_cover_push(es@, e, pos as int);
                lemma_names_ok_push(es@, e);
                lemma_vars_ok_push(es@, e);
                if end == cs.len() && ge is Some {
                    assert(element_follows(cs, e, py));
                    lemma_follow_push(cs, es@, e, py);
                }
            }
            es.push(e);
            i = j;
        }
    }
    Ok((es, i))
}

/// Parse a template.
///
/// `lang` is the language of its expressions (Python when `None`); `origin`
/// names where the template comes from, for error messages.
///
/// Every token of the result is the piece of `source` it names: its text,
/// its character offsets, and the line and column where it starts. The
/// elements cover the whole source, one after the other, and the body of
/// each element covers what lies between its start tag and its end tag: no
/// character is lost or read twice. Every end tag has the name of its start
/// tag, and an interpolation's expression is what lies between its braces.
/// The variables the template reads are listed once each, and every variable
/// reported, anywhere in the tree, is a name that is not a keyword.
///
/// A template without markup always parses, to a single text element (none
/// when it is empty). In Python, a template of text and `{{ name }}`
/// interpolations always parses, to text and interpolations only. Element
/// markup (`element_markup`: text, `{{ expr }}` interpolations, and elements
/// and components with an end tag whose attributes are boolean, quoted
/// static values, dynamic values, or a `<c-for>`'s `each="target in
/// iterable"`, where each `expr` or dynamic value is a Python name or names
/// joined by operators of one character, such as `a + b`) always parses,
/// and each element of the tree, at every depth, is the piece the grammar
/// reads where it starts (`elements_follow`).
///
/// An error points at an index of the source; its message starts with
/// `Parse error at line L, column C: ` for that index and, when `origin` is
/// given, ends with ` (in <origin>)`.
pub fn parse_template(source: &str, lang: Option<Lang>, origin: Option<&str>) -> (r: Result<
    Template,
    ParseError,
>)
    requires
        source@.len() <= MAX_TEMPLATE_LEN,
    ensures
        r matches Ok(t) ==> template_in(t, source@) && template_covers(t, 0, source@.len() as int)
            && names_distinct(t.used_vars@) && template_names_ok(t),
        r matches Ok(t) ==> t.used_vars@ == elements_read(t.elements@) && template_vars_ok(t),
        r matches Err(e) ==> error_located(e, source@) && has_suffix(
            e.message@,
            origin_note(origin),
        ),
        is_plain_text(source@) ==> (r matches Ok(t) && t.elements@.len() == (if source@.len() == 0 {
            0int
        } else {
            1int
        }) && (source@.len() > 0 ==> t.elements@[0] is Text)),
        (lang is None || lang == Some(Lang::Python)) && names_template_from(source@, 0) ==> (r matches Ok(
            t,
        ) && forall|k: int| 0 <= k < t.elements@.len() ==> !(#[trigger] t.elements@[k] is Node)),
        element_markup(source@, lang is None || lang == Some(Lang::Python)) ==> (r matches Ok(t)
            && elements_follow(source@, t.elements@, lang is None || lang == Some(Lang::Python))),
{
    let chars = str_to_chars(source);
    let (lines, cols) = line_col_table(&chars);
    let lang = match lang {
        Some(l) => l,
        None => Lang::Python,
    };
    let p = Src { chars, lines, cols, lang };
    let n = p.chars.len();
    let result = parse_elements(&p, 0, n);
    let result = match result {
        Ok(x) => x,
        Err(e) => {
            let ghost e0 = e;
            let r = with_origin(e, origin);
            proof {
                lemma_located_extend(e0, r, p.chars@, origin_note(origin));
            }
            return Err(r);
        },
    };
    let (elements, q) = result;
    if q < n {
        // A closing tag that closes nothing.
        let mut ne = q + 2;
        while ne < n && is_tag_name_char(p.chars[ne])
            invariant
                src_wf(&p),
                q + 2 <= ne <= n == p.chars@.len(),
            decreases n - ne,
        {
            ne = ne + 1;
        }
        let e = if range_is(&p, q + 2, ne, "c-raw") {
            error_at(
                &p,
                q,
                "Tag 'c-raw' is reserved and cannot be used as a regular HTML tag",
            )
        } else {
            error_named(&p, q, "unexpected closing tag </", q + 2, ne, ">")
        };
        let ghost e0 = e;
        let r = with_origin(e, origin);
        proof {
            lemma_located_extend(e0, r, p.chars@, origin_note(origin));
        }
        return Err(r);
    }
    let used_vars = element_vars(&elements, Ghost(p.chars@));
    Ok(Template { elements, used_vars })
}

/// What an error message ends with for a template from `origin`:
/// ` (in <origin>)`, or nothing.
pub open spec fn origin_note(origin: Option<&str>) -> Seq<char> {
    match origin {
        Some(o) => " (in "@ + o@ + ")"@,
        None => Seq::empty(),
    }
}

/// `e`, its message followed by ` (in <origin>)` when an origin is given.
fn with_origin(e: ParseError, origin: Option<&str>) -> (r: ParseError)
    ensures
        r.start_index == e.start_index,
        r.end_index == e.end_index,
        r.message@ == e.message@ + origin_note(origin),
{
    match origin {
        Some(o) => {
            let mut m = e.message;
            push_str(&mut m, " (in ");
            push_str(&mut m, o);
            push_str(&mut m, ")");
            ParseError { message: m, start_index: e.start_index, end_index: e.end_index }
        },
        None => {
            proof {
                assert(e.message@ + Seq::<char>::empty() =~= e.message@);
            }
            e
        },
    }
}

/// An error located in `s` stays located when its message is extended.
proof fn lemma_located_extend(e: ParseError, r: ParseError, s: Seq<char>, note: Seq<char>)
    requires
        error_located(e, s),
        r.start_index == e.start_index,
        r.end_index == e.end_index,
        r.message@ == e.message@ + note,
    ensures
        error_located(r, s),
        has_suffix(r.message@, note),
{
    let pre = error_prefix(s, e.start_index as int);
    assert(r.message@.subrange(0, pre.len() as int) =~= e.message@.subrange(0, pre.len() as int));
    assert(r.message@.subrange(r.message@.len() - note.len(), r.message@.len() as int) =~= note);
}

} // verus!
