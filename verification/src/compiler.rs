//! The compiler: turns a parsed template into the language-agnostic
//! intermediate form that code generation (`LangImpl::compile`) and the
//! render plan (`render_plan`) consume.
//!
//! Static markup is emitted as text and consecutive pieces of text are
//! coalesced into one item; interpolations, dynamic attribute regions,
//! control flow and components become node structs. `<c-if>`, `<c-elif>`
//! and `<c-else>` siblings are grouped into one `IfNode`, `<c-for>` and a
//! following `<c-empty>` into one `ForNode` (whitespace between grouped tags
//! is dropped).

use vstd::prelude::*;

use crate::ast::{
    copy_token, element_text, elements_text, has_name, lemma_with_new_names_covers,
    lemma_with_new_names_from, template_text,
    with_new_names, AttrKind, ExprElement, Node, TagAttr, Template,
    TemplateElement, Token,
};
use crate::constants::{
    COMPONENT_NODE, ELEMENT_ATTRS_NODE, EXPR_NODE, FOR_NODE, IF_NODE, TEMPLATE_ATTR_NODE,
};
use crate::error::CompileError;
use crate::lang::lang::{LangSpecArgument, LangSpecStruct};
use crate::render_plan::is_text_arg;
use crate::text::{owned, push_str, str_eq, str_to_chars};

verus! {

// ---------------------------------------------------------------------------
// Coalescing
// ---------------------------------------------------------------------------

/// The text of a string item (empty for any other item).
pub open spec fn arg_text(a: LangSpecArgument) -> Seq<char> {
    match a {
        LangSpecArgument::UnsafeString(s) => s@,
        LangSpecArgument::SafeString(s) => s@,
        _ => Seq::empty(),
    }
}

/// The runs of text of a body: the text before the first non-text item,
/// between each two, and after the last (one more run than non-text items).
pub open spec fn text_runs(items: Seq<LangSpecArgument>) -> Seq<Seq<char>>
    decreases items.len(),
{
    if items.len() == 0 {
        seq![Seq::empty()]
    } else {
        let r = text_runs(items.drop_last());
        if is_text_arg(items.last()) {
            r.update(r.len() - 1, r.last() + arg_text(items.last()))
        } else {
            r.push(Seq::empty())
        }
    }
}

/// The non-text items of a body, in order.
pub open spec fn non_text_items(items: Seq<LangSpecArgument>) -> Seq<LangSpecArgument>
    decreases items.len(),
{
    if items.len() == 0 {
        Seq::empty()
    } else if is_text_arg(items.last()) {
        non_text_items(items.drop_last())
    } else {
        non_text_items(items.drop_last()).push(items.last())
    }
}

/// Whether every string item of `items` is an `UnsafeString`.
pub open spec fn unsafe_texts(items: Seq<LangSpecArgument>) -> bool {
    forall|i: int| 0 <= i < items.len() && is_text_arg(#[trigger] items[i]) ==> items[i] is UnsafeString
}

/// Whether no two string items are adjacent and no string item is empty.
pub open spec fn is_coalesced(items: Seq<LangSpecArgument>) -> bool {
    &&& forall|i: int|
        0 <= i < items.len() - 1 ==> !(is_text_arg(#[trigger] items[i]) && is_text_arg(
            items[i + 1],
        ))
    &&& forall|i: int| 0 <= i < items.len() && is_text_arg(#[trigger] items[i]) ==> arg_text(items[i]).len() > 0
}

proof fn lemma_runs_nonempty(items: Seq<LangSpecArgument>)
    ensures
        text_runs(items).len() == non_text_items(items).len() + 1,
    decreases items.len(),
{
    if items.len() > 0 {
        lemma_runs_nonempty(items.drop_last());
    }
}

/// Whether `a` and `b` have their string items at the same positions,
/// holding the same text.
pub open spec fn same_shape(a: Seq<LangSpecArgument>, b: Seq<LangSpecArgument>) -> bool {
    &&& a.len() == b.len()
    &&& forall|i: int|
        0 <= i < a.len() ==> (is_text_arg(#[trigger] a[i]) <==> is_text_arg(b[i])) && (
        is_text_arg(a[i]) ==> arg_text(a[i]) == arg_text(b[i]))
}

/// The last run of a body that is empty or ends in a non-text item is empty.
proof fn lemma_runs_last_empty(x: Seq<LangSpecArgument>)
    requires
        x.len() == 0 || !is_text_arg(x.last()),
    ensures
        text_runs(x).last() == Seq::<char>::empty(),
{
}

/// Two coalesced bodies with the same runs of text have their string items
/// at the same positions, holding the same text: the runs fix where the
/// strings stand.
pub proof fn lemma_coalesced_shape(a: Seq<LangSpecArgument>, b: Seq<LangSpecArgument>)
    requires
        is_coalesced(a),
        is_coalesced(b),
        text_runs(a) == text_runs(b),
    ensures
        same_shape(a, b),
    decreases a.len() + b.len(),
{
    if a.len() == 0 || b.len() == 0 {
        if a.len() > 0 {
            lemma_runs_nonempty(a.drop_last());
            if is_text_arg(a.last()) {
                assert(arg_text(a[a.len() - 1]).len() > 0);
                assert(text_runs(a).last().len() > 0);
            }
        } else if b.len() > 0 {
            lemma_runs_nonempty(b.drop_last());
            if is_text_arg(b.last()) {
                assert(arg_text(b[b.len() - 1]).len() > 0);
                assert(text_runs(b).last().len() > 0);
            }
        }
    } else {
        let a1 = a.drop_last();
        let b1 = b.drop_last();
        assert forall|i: int| 0 <= i < a1.len() - 1 implies !(is_text_arg(#[trigger] a1[i])
            && is_text_arg(a1[i + 1])) by {
            assert(a1[i] == a[i] && a1[i + 1] == a[i + 1]);
        }
        assert forall|i: int| 0 <= i < b1.len() - 1 implies !(is_text_arg(#[trigger] b1[i])
            && is_text_arg(b1[i + 1])) by {
            assert(b1[i] == b[i] && b1[i + 1] == b[i + 1]);
        }
        assert forall|i: int| 0 <= i < a1.len() && is_text_arg(#[trigger] a1[i]) implies arg_text(
            a1[i],
        ).len() > 0 by {
            assert(a1[i] == a[i]);
        }
        assert forall|i: int| 0 <= i < b1.len() && is_text_arg(#[trigger] b1[i]) implies arg_text(
            b1[i],
        ).len() > 0 by {
            assert(b1[i] == b[i]);
        }
        let ra = text_runs(a1);
        let rb = text_runs(b1);
        lemma_runs_nonempty(a1);
        lemma_runs_nonempty(b1);
        let ta = is_text_arg(a.last());
        let tb = is_text_arg(b.last());
        if ta {
            assert(a1.len() == 0 || !is_text_arg(a1.last())) by {
                if a1.len() > 0 {
                    assert(a1.last() == a[a.len() - 2]);
                }
            }
            lemma_runs_last_empty(a1);
            assert(arg_text(a[a.len() - 1]).len() > 0);
        } else {
            lemma_runs_last_empty(a);
        }
        if tb {
            assert(b1.len() == 0 || !is_text_arg(b1.last())) by {
                if b1.len() > 0 {
                    assert(b1.last() == b[b.len() - 2]);
                }
            }
            lemma_runs_last_empty(b1);
            assert(arg_text(b[b.len() - 1]).len() > 0);
        } else {
            lemma_runs_last_empty(b);
        }
        if ta && tb {
            assert(arg_text(a.last()) == text_runs(a).last());
            assert(arg_text(b.last()) == text_runs(b).last());
            assert(ra =~= rb) by {
                assert forall|k: int| 0 <= k < ra.len() implies ra[k] == rb[k] by {
                    if k < ra.len() - 1 {
                        assert(ra[k] == text_runs(a)[k]);
                        assert(rb[k] == text_runs(b)[k]);
                    }
                }
            }
        } else if !ta && !tb {
            assert(ra =~= text_runs(a).drop_last());
            assert(rb =~= text_runs(b).drop_last());
        } else {
            assert(false);
        }
        lemma_coalesced_shape(a1, b1);
        assert forall|i: int| 0 <= i < a.len() implies (is_text_arg(#[trigger] a[i]) <==> is_text_arg(
            b[i],
        )) && (is_text_arg(a[i]) ==> arg_text(a[i]) == arg_text(b[i])) by {
            if i < a1.len() {
                assert(a1[i] == a[i] && b1[i] == b[i]);
            }
        }
    }
}

/// `runs` with `t` appended to its last run.
pub open spec fn extend_last(runs: Seq<Seq<char>>, t: Seq<char>) -> Seq<Seq<char>> {
    runs.update(runs.len() - 1, runs.last() + t)
}

/// Whether `items` are the names of `vars` as `SafeString`s, in order.
pub open spec fn names_of(items: Seq<LangSpecArgument>, vars: Seq<Token>) -> bool {
    &&& items.len() == vars.len()
    &&& forall|k: int|
        0 <= k < items.len() ==> (#[trigger] items[k]) is SafeString && items[k]->SafeString_0@
            == vars[k].content@
}

/// Whether `a` is the `ExprNode` struct of interpolation `x`:
/// `ExprNode(source, (start, end), expr, (var, ...))`.
pub open spec fn expr_struct_of(a: LangSpecArgument, x: ExprElement) -> bool {
    &&& a is Struct
    &&& a->Struct_0.name@ == EXPR_NODE@
    &&& a->Struct_0.arguments@.len() == 4
    &&& a->Struct_0.arguments@[0] matches LangSpecArgument::Variable(v) && v@ == "source"@
    &&& a->Struct_0.arguments@[1] == LangSpecArgument::Tuple(a->Struct_0.arguments@[1]->Tuple_0)
    &&& a->Struct_0.arguments@[1]->Tuple_0@ == seq![
        LangSpecArgument::Int(x.token.start_index),
        LangSpecArgument::Int(x.token.end_index),
    ]
    &&& a->Struct_0.arguments@[2] matches LangSpecArgument::UnsafeString(e) && e@
        == x.expr.content@
    &&& a->Struct_0.arguments@[3] matches LangSpecArgument::Tuple(vs) && names_of(
        vs@,
        x.used_vars@,
    )
}

/// The runs of text `a` and then `b` make: the last run of `a` joins the
/// first of `b`.
pub open spec fn join_runs(a: Seq<Seq<char>>, b: Seq<Seq<char>>) -> Seq<Seq<char>> {
    a.drop_last().push(a.last() + b[0]) + b.subrange(1, b.len() as int)
}

// ---------------------------------------------------------------------------
// Branch tags in place
// ---------------------------------------------------------------------------

/// Whether `e` is a tag named `name`.
pub open spec fn named(e: TemplateElement, name: Seq<char>) -> bool {
    e matches TemplateElement::Node(n) && n.start_tag.name.content@ == name
}

/// Whether `s` holds only spaces, tabs and line breaks.
pub open spec fn blank(s: Seq<char>) -> bool {
    forall|i: int|
        0 <= i < s.len() ==> (#[trigger] s[i] == ' ' || s[i] == '\t' || s[i] == '\n' || s[i]
            == '\r')
}

/// Whether `e` is text holding only whitespace.
pub open spec fn blank_text(e: TemplateElement) -> bool {
    e matches TemplateElement::Text(t) && blank(t.content@)
}

/// The position of the last element of `es[..k]` that is not blank text.
pub open spec fn prev_non_blank(es: Seq<TemplateElement>, k: int) -> Option<int>
    decreases k,
{
    if k <= 0 {
        None
    } else if blank_text(es[k - 1]) {
        prev_non_blank(es, k - 1)
    } else {
        Some(k - 1)
    }
}

/// Whether element `k` of `es`, if it is a branch tag, follows the tag it
/// continues, whitespace aside: `<c-elif>` and `<c-else>` follow `<c-if>` or
/// `<c-elif>`, and `<c-empty>` follows `<c-for>`.
pub open spec fn branch_in_place(es: Seq<TemplateElement>, k: int) -> bool {
    let e = es[k];
    if named(e, "c-elif"@) || named(e, "c-else"@) {
        prev_non_blank(es, k) matches Some(m) && (named(es[m], "c-if"@) || named(es[m], "c-elif"@))
    } else if named(e, "c-empty"@) {
        prev_non_blank(es, k) matches Some(m) && named(es[m], "c-for"@)
    } else {
        true
    }
}

/// Whether every branch tag of `es` follows the tag it continues.
pub open spec fn all_in_place(es: Seq<TemplateElement>) -> bool {
    forall|k: int| 0 <= k < es.len() ==> #[trigger] branch_in_place(es, k)
}

/// Whether the body of an element, unless it is `<c-raw>`, has its branch
/// tags in place at every depth.
pub open spec fn element_body_ok(e: TemplateElement) -> bool
    decreases e, 0nat,
{
    match e {
        TemplateElement::Node(n) => named(e, "c-raw"@) || match n.body {
            Some(b) => template_branches_ok(b),
            None => true,
        },
        _ => true,
    }
}

/// Whether the body of every element of `es` has its branch tags in place.
pub open spec fn bodies_ok(es: Seq<TemplateElement>) -> bool
    decreases es, 0nat,
{
    es.len() > 0 ==> {
        &&& bodies_ok(es.subrange(0, es.len() - 1))
        &&& element_body_ok(es[es.len() - 1])
    }
}

/// Whether every branch tag of a template, at every depth outside
/// `<c-raw>`, follows the tag it continues.
pub open spec fn template_branches_ok(t: Template) -> bool
    decreases t, 0nat,
{
    all_in_place(t.elements@) && bodies_ok(t.elements@)
}

/// The bodies of all elements are in order just when each is.
proof fn lemma_bodies_ok(es: Seq<TemplateElement>)
    ensures
        bodies_ok(es) <==> forall|k: int| 0 <= k < es.len() ==> element_body_ok(#[trigger] es[k]),
    decreases es.len(),
{
    if es.len() > 0 {
        let p = es.subrange(0, es.len() - 1);
        lemma_bodies_ok(p);
        if forall|k: int| 0 <= k < es.len() ==> element_body_ok(#[trigger] es[k]) {
            assert forall|k: int| 0 <= k < p.len() implies element_body_ok(#[trigger] p[k]) by {
                assert(p[k] == es[k]);
            }
            assert(element_body_ok(es[es.len() - 1]));
        }
        if bodies_ok(es) {
            assert forall|k: int| 0 <= k < es.len() implies element_body_ok(#[trigger] es[k]) by {
                if k < es.len() - 1 {
                    assert(p[k] == es[k]);
                }
            }
        }
    }
}

/// The message of the error for a misplaced branch tag: a `<c-empty>` when
/// `empty`, else a `<c-elif>` or `<c-else>`.
pub open spec fn misplaced_message(empty: bool) -> Seq<char> {
    if empty {
        "<c-empty> must directly follow <c-for>"@
    } else {
        "<c-elif>/<c-else> must directly follow <c-if> or <c-elif>"@
    }
}

/// Whether `e` is the error for the misplaced branch tag `first`.
pub open spec fn error_of(e: CompileError, first: Option<bool>) -> bool {
    first matches Some(k) && (e matches CompileError::Syntax(m) && m@ == misplaced_message(k))
}

/// The first misplaced branch tag in the body of node `n`.
pub open spec fn node_error(n: Node) -> Option<bool> {
    match n.body {
        Some(b) => template_error(b),
        None => None,
    }
}

/// The first misplaced branch tag of a template, reading it in document
/// order and each body where its tag stands (outside `<c-raw>`): whether it
/// is a `<c-empty>`, or `None` when every branch tag is in place.
pub open spec fn template_error(t: Template) -> Option<bool>
    decreases t, 0nat,
{
    first_error_before(t.elements@, t.elements@.len() as int)
}

/// The first misplaced branch tag among `es[..i]` and their bodies.
pub open spec fn first_error_before(es: Seq<TemplateElement>, i: int) -> Option<bool>
    decreases es, i,
{
    if i <= 0 || i > es.len() {
        None
    } else {
        match first_error_before(es, i - 1) {
            Some(k) => Some(k),
            None => if !branch_in_place(es, i - 1) {
                Some(named(es[i - 1], "c-empty"@))
            } else {
                element_error(es[i - 1])
            },
        }
    }
}

/// The first misplaced branch tag in the body of `e` (none in `<c-raw>`).
pub open spec fn element_error(e: TemplateElement) -> Option<bool>
    decreases e, 0nat,
{
    match e {
        TemplateElement::Node(n) => if named(e, "c-raw"@) {
            None
        } else {
            match n.body {
                Some(b) => template_error(b),
                None => None,
            }
        },
        _ => None,
    }
}

/// With every branch tag in place, there is no first misplaced one.
proof fn lemma_template_ok(t: Template)
    requires
        template_branches_ok(t),
    ensures
        template_error(t) is None,
    decreases t, 0nat,
{
    assert(decreases_to!(t => t.elements));
    assert(decreases_to!(t.elements => t.elements@));
    lemma_bodies_ok(t.elements@);
    lemma_prefix_ok(t.elements@, t.elements@.len() as int);
}

/// With `es[..i]` in place, bodies included, there is no error among them.
proof fn lemma_prefix_ok(es: Seq<TemplateElement>, i: int)
    requires
        0 <= i <= es.len(),
        forall|k: int| 0 <= k < i ==> #[trigger] branch_in_place(es, k),
        forall|k: int| 0 <= k < i ==> element_body_ok(#[trigger] es[k]),
    ensures
        first_error_before(es, i) is None,
    decreases es, i,
{
    if i > 0 {
        lemma_prefix_ok(es, i - 1);
        assert(branch_in_place(es, i - 1));
        assert(element_body_ok(es[i - 1]));
        lemma_element_ok(es[i - 1]);
    }
}

/// The body of an element that is in order holds no misplaced tag.
proof fn lemma_element_ok(e: TemplateElement)
    requires
        element_body_ok(e),
    ensures
        element_error(e) is None,
    decreases e, 0nat,
{
    if let TemplateElement::Node(n) = e {
        if !named(e, "c-raw"@) {
            if let Some(b) = n.body {
                assert(decreases_to!(e => b));
                lemma_template_ok(b);
            }
        }
    }
}

/// An error found at `es[i]`, with nothing wrong before it, is the first.
proof fn lemma_error_found(es: Seq<TemplateElement>, i: int, k: bool)
    requires
        0 <= i < es.len(),
        forall|m: int| 0 <= m < i ==> #[trigger] branch_in_place(es, m),
        forall|m: int| 0 <= m < i ==> element_body_ok(#[trigger] es[m]),
        (if !branch_in_place(es, i) {
            Some(named(es[i], "c-empty"@))
        } else {
            element_error(es[i])
        }) == Some(k),
    ensures
        first_error_before(es, es.len() as int) == Some(k),
{
    lemma_prefix_ok(es, i);
    lemma_error_stays(es, i + 1, k);
}

/// An error in the body of a node in place, with nothing wrong before it,
/// is the first.
proof fn lemma_error_in_body(es: Seq<TemplateElement>, i: int, n: Node)
    requires
        0 <= i < es.len(),
        forall|m: int| 0 <= m < i ==> #[trigger] branch_in_place(es, m),
        forall|m: int| 0 <= m < i ==> element_body_ok(#[trigger] es[m]),
        es[i] == TemplateElement::Node(n),
        !named(es[i], "c-raw"@),
        branch_in_place(es, i),
        node_error(n) is Some,
    ensures
        first_error_before(es, es.len() as int) == node_error(n),
{
    lemma_error_found(es, i, node_error(n)->Some_0);
}

/// Once found, the first error stays the first.
proof fn lemma_error_stays(es: Seq<TemplateElement>, j: int, k: bool)
    requires
        0 < j <= es.len(),
        first_error_before(es, j) == Some(k),
    ensures
        first_error_before(es, es.len() as int) == Some(k),
    decreases es.len() - j,
{
    if j < es.len() {
        lemma_error_stays(es, j + 1, k);
    }
}

/// A `<c-elif>`/`<c-else>` is in place just when an `<c-if>` group is
/// open before it, a `<c-empty>` just when a `<c-for>` group is.
proof fn lemma_in_place_open(es: Seq<TemplateElement>, k: int)
    ensures
        named(es[k], "c-elif"@) || named(es[k], "c-else"@) ==> (branch_in_place(es, k) == (
        open_group(es, k) == 1)),
        !named(es[k], "c-elif"@) && !named(es[k], "c-else"@) && named(es[k], "c-empty"@) ==> (
        branch_in_place(es, k) == (open_group(es, k) == 2)),
        !named(es[k], "c-elif"@) && !named(es[k], "c-else"@) && !named(es[k], "c-empty"@)
            ==> branch_in_place(es, k),
{
    reveal_strlit("c-if");
    reveal_strlit("c-elif");
    reveal_strlit("c-for");
    assert("c-if"@ =~= seq!['c', '-', 'i', 'f']);
    assert("c-elif"@ =~= seq!['c', '-', 'e', 'l', 'i', 'f']);
    assert("c-for"@ =~= seq!['c', '-', 'f', 'o', 'r']);
}

/// Which group of branch tags is open after `es[..i]`: 1 for `<c-if>`
/// (continued by `<c-elif>`), 2 for `<c-for>`, 0 for none.
spec fn open_group(es: Seq<TemplateElement>, i: int) -> int {
    match prev_non_blank(es, i) {
        Some(m) => if named(es[m], "c-if"@) || named(es[m], "c-elif"@) {
            1
        } else if named(es[m], "c-for"@) {
            2
        } else {
            0
        },
        None => 0,
    }
}

// ---------------------------------------------------------------------------
// Static markup
// ---------------------------------------------------------------------------

/// Whether a tag name names a component or a built-in tag (`c-` prefix).
pub open spec fn is_c_name(name: Seq<char>) -> bool {
    name.len() >= 2 && name[0] == 'c' && name[1] == '-'
}

/// Whether every attribute is a plain static or boolean attribute.
pub open spec fn attrs_static(attrs: Seq<TagAttr>) -> bool {
    forall|i: int|
        0 <= i < attrs.len() ==> (#[trigger] attrs[i]).kind == AttrKind::Static || attrs[i].kind
            == AttrKind::Boolean
}

/// Whether an element is static markup: text, or a plain HTML element with
/// static attributes whose body is static markup.
pub open spec fn element_static(e: TemplateElement) -> bool
    decreases e, 0nat,
{
    match e {
        TemplateElement::Text(_) => true,
        TemplateElement::Expr(_) => false,
        TemplateElement::Node(n) => {
            &&& !is_c_name(n.start_tag.name.content@)
            &&& attrs_static(n.start_tag.attrs@)
            &&& match n.body {
                Some(b) => template_static(b),
                None => true,
            }
        },
    }
}

/// Whether every element of `es` is static markup.
pub open spec fn elements_static(es: Seq<TemplateElement>) -> bool
    decreases es, 0nat,
{
    es.len() > 0 ==> {
        &&& elements_static(es.subrange(0, es.len() - 1))
        &&& element_static(es[es.len() - 1])
    }
}

/// Whether a template is static markup.
pub open spec fn template_static(t: Template) -> bool
    decreases t, 0nat,
{
    elements_static(t.elements@)
}

// ---------------------------------------------------------------------------
// Markup with interpolations
// ---------------------------------------------------------------------------

/// Whether an element is markup with interpolations: text, an
/// interpolation, or a plain HTML element with static attributes whose body
/// is such markup.
pub open spec fn element_interp(e: TemplateElement) -> bool
    decreases e, 0nat,
{
    match e {
        TemplateElement::Text(_) => true,
        TemplateElement::Expr(_) => true,
        TemplateElement::Node(n) => {
            &&& !is_c_name(n.start_tag.name.content@)
            &&& attrs_static(n.start_tag.attrs@)
            &&& match n.body {
                Some(b) => template_interp(b),
                None => true,
            }
        },
    }
}

/// Whether every element of `es` is markup with interpolations.
pub open spec fn elements_interp(es: Seq<TemplateElement>) -> bool
    decreases es, 0nat,
{
    es.len() > 0 ==> {
        &&& elements_interp(es.subrange(0, es.len() - 1))
        &&& element_interp(es[es.len() - 1])
    }
}

/// Whether a template is markup with interpolations.
pub open spec fn template_interp(t: Template) -> bool
    decreases t, 0nat,
{
    elements_interp(t.elements@)
}

/// The runs of text of an element as written, split at its interpolations
/// (one more run than interpolations).
pub open spec fn element_runs(e: TemplateElement) -> Seq<Seq<char>>
    decreases e, 0nat,
{
    match e {
        TemplateElement::Text(t) => seq![t.content@],
        TemplateElement::Expr(_) => seq![Seq::empty(), Seq::empty()],
        TemplateElement::Node(n) => join_runs(
            join_runs(seq![n.start_tag.token.content@], body_runs_of(n.body)),
            seq![crate::ast::end_text_of(n.end_tag)],
        ),
    }
}

/// The runs of text of an optional body.
pub open spec fn body_runs_of(b: Option<Template>) -> Seq<Seq<char>>
    decreases b, 0nat,
{
    match b {
        Some(t) => template_runs(t),
        None => seq![Seq::empty()],
    }
}

/// The runs of text of the elements of `es`, one after the other.
pub open spec fn elements_runs(es: Seq<TemplateElement>) -> Seq<Seq<char>>
    decreases es, 0nat,
{
    if es.len() == 0 {
        seq![Seq::empty()]
    } else {
        join_runs(elements_runs(es.subrange(0, es.len() - 1)), element_runs(es[es.len() - 1]))
    }
}

/// The runs of text of a template.
pub open spec fn template_runs(t: Template) -> Seq<Seq<char>>
    decreases t, 0nat,
{
    elements_runs(t.elements@)
}

/// The interpolations of an element, in document order.
pub open spec fn element_exprs(e: TemplateElement) -> Seq<ExprElement>
    decreases e, 0nat,
{
    match e {
        TemplateElement::Text(_) => Seq::empty(),
        TemplateElement::Expr(x) => seq![x],
        TemplateElement::Node(n) => body_exprs_of(n.body),
    }
}

/// The interpolations of an optional body.
pub open spec fn body_exprs_of(b: Option<Template>) -> Seq<ExprElement>
    decreases b, 0nat,
{
    match b {
        Some(t) => template_exprs(t),
        None => Seq::empty(),
    }
}

/// The interpolations of the elements of `es`, in document order.
pub open spec fn elements_exprs(es: Seq<TemplateElement>) -> Seq<ExprElement>
    decreases es, 0nat,
{
    if es.len() == 0 {
        Seq::empty()
    } else {
        elements_exprs(es.subrange(0, es.len() - 1)) + element_exprs(es[es.len() - 1])
    }
}

/// The interpolations of a template, in document order.
pub open spec fn template_exprs(t: Template) -> Seq<ExprElement>
    decreases t, 0nat,
{
    elements_exprs(t.elements@)
}

/// Whether `nodes` are the `ExprNode` structs of `xs`, in order.
pub open spec fn expr_structs_of(nodes: Seq<LangSpecArgument>, xs: Seq<ExprElement>) -> bool {
    &&& nodes.len() == xs.len()
    &&& forall|k: int| 0 <= k < xs.len() ==> expr_struct_of(#[trigger] nodes[k], xs[k])
}

/// Whether `after` is `before` followed by the `ExprNode` structs of `xs`.
pub open spec fn exprs_appended(
    after: Seq<LangSpecArgument>,
    before: Seq<LangSpecArgument>,
    xs: Seq<ExprElement>,
) -> bool {
    &&& after.len() == before.len() + xs.len()
    &&& after.subrange(0, before.len() as int) == before
    &&& forall|k: int| 0 <= k < xs.len() ==> expr_struct_of(#[trigger] after[before.len() + k], xs[k])
}

/// Joining runs is associative.
proof fn lemma_join_assoc(a: Seq<Seq<char>>, b: Seq<Seq<char>>, c: Seq<Seq<char>>)
    requires
        a.len() > 0,
        b.len() > 0,
        c.len() > 0,
    ensures
        join_runs(join_runs(a, b), c) == join_runs(a, join_runs(b, c)),
        join_runs(a, b).len() == a.len() + b.len() - 1,
{
    let ab = join_runs(a, b);
    let bc = join_runs(b, c);
    assert(ab.len() == a.len() + b.len() - 1);
    assert(bc.len() == b.len() + c.len() - 1);
    if b.len() == 1 {
        assert(ab.last() == a.last() + b[0]);
        assert(bc[0] == b[0] + c[0]);
        assert(ab.last() + c[0] =~= a.last() + bc[0]);
    } else {
        assert(ab.last() == b.last());
        assert(bc[0] == b[0]);
    }
    assert(join_runs(ab, c) =~= join_runs(a, bc));
}

/// Joining with a single empty run changes nothing.
proof fn lemma_join_unit(a: Seq<Seq<char>>)
    requires
        a.len() > 0,
    ensures
        join_runs(a, seq![Seq::empty()]) == a,
        join_runs(seq![Seq::empty()], a) == a,
{
    assert(a.last() + Seq::<char>::empty() =~= a.last());
    assert(join_runs(a, seq![Seq::empty()]) =~= a);
    assert(Seq::<char>::empty() + a[0] =~= a[0]);
    assert(join_runs(seq![Seq::empty()], a) =~= a);
}

/// An element has one more run than interpolations.
proof fn lemma_element_runs_len(e: TemplateElement)
    ensures
        element_runs(e).len() == element_exprs(e).len() + 1,
    decreases e, 1nat,
{
    match e {
        TemplateElement::Node(n) => {
            match n.body {
                Some(b) => {
                    assert(decreases_to!(e => b.elements@));
                    lemma_elements_runs_len(b.elements@);
                    lemma_join_assoc(seq![n.start_tag.token.content@], template_runs(b), seq![crate::ast::end_text_of(n.end_tag)]);
                    lemma_join_assoc(seq![n.start_tag.token.content@], template_runs(b), seq![Seq::empty()]);
                },
                None => {
                    lemma_join_assoc(seq![n.start_tag.token.content@], seq![Seq::empty()], seq![crate::ast::end_text_of(n.end_tag)]);
                },
            }
        },
        _ => {},
    }
}

/// Elements have one more run than interpolations.
proof fn lemma_elements_runs_len(es: Seq<TemplateElement>)
    ensures
        elements_runs(es).len() == elements_exprs(es).len() + 1,
    decreases es, 0nat,
{
    if es.len() > 0 {
        let n = es.len() - 1;
        assert(decreases_to!(es => es.subrange(0, n)));
        lemma_elements_runs_len(es.subrange(0, n));
        lemma_element_runs_len(es[n]);
        lemma_join_assoc(elements_runs(es.subrange(0, n)), element_runs(es[n]), seq![Seq::empty()]);
    }
}

/// Appending a string item joins its text to the runs.
proof fn lemma_push_text_runs(out: Seq<LangSpecArgument>, x: LangSpecArgument)
    requires
        is_text_arg(x),
    ensures
        text_runs(out.push(x)) == join_runs(text_runs(out), seq![arg_text(x)]),
        non_text_items(out.push(x)) == non_text_items(out),
{
    lemma_runs_nonempty(out);
    assert(out.push(x).drop_last() =~= out);
    assert(join_runs(text_runs(out), seq![arg_text(x)]) =~= extend_last(text_runs(out), arg_text(x)));
}

/// Appending a node item starts a new run.
proof fn lemma_push_node_runs(out: Seq<LangSpecArgument>, x: LangSpecArgument)
    requires
        !is_text_arg(x),
    ensures
        text_runs(out.push(x)) == join_runs(text_runs(out), seq![Seq::empty(), Seq::empty()]),
        non_text_items(out.push(x)) == non_text_items(out).push(x),
{
    lemma_runs_nonempty(out);
    assert(out.push(x).drop_last() =~= out);
    let r = text_runs(out);
    assert(r.last() + Seq::<char>::empty() =~= r.last());
    assert(join_runs(r, seq![Seq::empty(), Seq::empty()]) =~= r.push(Seq::empty()));
}

/// `exprs_appended` composes.
proof fn lemma_exprs_appended_trans(
    a: Seq<LangSpecArgument>,
    b: Seq<LangSpecArgument>,
    c: Seq<LangSpecArgument>,
    xs: Seq<ExprElement>,
    ys: Seq<ExprElement>,
)
    requires
        exprs_appended(b, a, xs),
        exprs_appended(c, b, ys),
    ensures
        exprs_appended(c, a, xs + ys),
{
    assert(c.subrange(0, a.len() as int) =~= c.subrange(0, b.len() as int).subrange(0, a.len() as int));
    assert forall|k: int| 0 <= k < (xs + ys).len() implies expr_struct_of(
        #[trigger] c[a.len() + k],
        (xs + ys)[k],
    ) by {
        if k < xs.len() {
            assert(c.subrange(0, b.len() as int)[a.len() + k] == c[a.len() + k]);
            assert(expr_struct_of(b[a.len() + k], xs[k]));
        } else {
            let j = k - xs.len();
            assert(c[b.len() + j] == c[a.len() + k]);
            assert(expr_struct_of(c[b.len() + j], ys[j]));
        }
    }
}

/// Nothing appended.
proof fn lemma_exprs_appended_none(a: Seq<LangSpecArgument>)
    ensures
        exprs_appended(a, a, Seq::empty()),
{
    assert(a.subrange(0, a.len() as int) =~= a);
}

/// Text and interpolations, without any node, are markup with
/// interpolations: what the parser gives for a template of text and
/// `{{ name }}` interpolations always compiles.
pub proof fn lemma_no_nodes_interp(t: Template)
    requires
        forall|k: int| 0 <= k < t.elements@.len() ==> !(#[trigger] t.elements@[k] is Node),
    ensures
        template_interp(t),
{
    lemma_no_nodes_interp_elements(t.elements@);
}

proof fn lemma_no_nodes_interp_elements(es: Seq<TemplateElement>)
    requires
        forall|k: int| 0 <= k < es.len() ==> !(#[trigger] es[k] is Node),
    ensures
        elements_interp(es),
    decreases es.len(),
{
    if es.len() > 0 {
        let p = es.subrange(0, es.len() - 1);
        assert forall|k: int| 0 <= k < p.len() implies !(#[trigger] p[k] is Node) by {
            assert(p[k] == es[k]);
        }
        lemma_no_nodes_interp_elements(p);
        let last = es[es.len() - 1];
        assert(!(last is Node));
        assert(element_interp(last));
    }
}

/// Element `i` of interpolated markup is interpolated markup.
proof fn lemma_interp_at(es: Seq<TemplateElement>, i: int)
    requires
        elements_interp(es),
        0 <= i < es.len(),
    ensures
        element_interp(es[i]),
    decreases es.len(),
{
    if i < es.len() - 1 {
        lemma_interp_at(es.subrange(0, es.len() - 1), i);
    }
}

/// Element `i` of static elements is static.
proof fn lemma_static_at(es: Seq<TemplateElement>, i: int)
    requires
        elements_static(es),
        0 <= i < es.len(),
    ensures
        element_static(es[i]),
    decreases es.len(),
{
    if i < es.len() - 1 {
        lemma_static_at(es.subrange(0, es.len() - 1), i);
    }
}

/// A coalesced body without node structs is at most one string: its text.
proof fn lemma_coalesced_text_only(items: Seq<LangSpecArgument>)
    requires
        is_coalesced(items),
        non_text_items(items).len() == 0,
    ensures
        items.len() <= 1,
        items.len() == 0 ==> text_runs(items) == seq![Seq::<char>::empty()],
        items.len() == 1 ==> is_text_arg(items[0]) && text_runs(items) == seq![arg_text(items[0])],
    decreases items.len(),
{
    if items.len() > 0 {
        let p = items.drop_last();
        lemma_runs_nonempty(p);
        if !is_text_arg(items.last()) {
            assert(non_text_items(items).len() == non_text_items(p).len() + 1);
        }
        assert(non_text_items(p).len() == 0);
        assert(is_coalesced(p)) by {
            assert forall|i: int| 0 <= i < p.len() - 1 implies !(is_text_arg(#[trigger] p[i])
                && is_text_arg(p[i + 1])) by {
                assert(p[i] == items[i] && p[i + 1] == items[i + 1]);
            }
            assert forall|i: int| 0 <= i < p.len() && is_text_arg(#[trigger] p[i]) implies arg_text(
                p[i],
            ).len() > 0 by {
                assert(p[i] == items[i]);
            }
        }
        lemma_coalesced_text_only(p);
        if p.len() == 1 {
            assert(!(is_text_arg(items[0]) && is_text_arg(items[1])));
            assert(items[0] == p[0]);
        }
        if p.len() == 0 {
            assert(seq![Seq::<char>::empty()].update(0, Seq::<char>::empty() + arg_text(items.last()))
                =~= seq![arg_text(items.last())]);
            assert(items[0] == items.last());
        }
    }
}

/// Appending a string item extends the last run of text.
proof fn lemma_push_text(out: Seq<LangSpecArgument>, x: LangSpecArgument)
    requires
        is_text_arg(x),
    ensures
        text_runs(out.push(x)) == extend_last(text_runs(out), arg_text(x)),
        non_text_items(out.push(x)) == non_text_items(out),
{
    assert(out.push(x).drop_last() =~= out);
}

/// Extending the last run twice extends it by both texts.
proof fn lemma_extend_twice(runs: Seq<Seq<char>>, a: Seq<char>, b: Seq<char>)
    requires
        runs.len() > 0,
    ensures
        extend_last(extend_last(runs, a), b) == extend_last(runs, a + b),
        extend_last(runs, Seq::empty()) == runs,
{
    assert(runs.last() + a + b =~= runs.last() + (a + b));
    assert(extend_last(extend_last(runs, a), b) =~= extend_last(runs, a + b));
    assert(runs.last() + Seq::<char>::empty() =~= runs.last());
    assert(extend_last(runs, Seq::empty()) =~= runs);
}

/// Merge consecutive string items into one `UnsafeString` and drop empty
/// ones. The runs of text and the non-text items are unchanged.
pub fn coalesce(items: Vec<LangSpecArgument>) -> (r: Vec<LangSpecArgument>)
    ensures
        is_coalesced(r@),
        text_runs(r@) == text_runs(items@),
        non_text_items(r@) == non_text_items(items@),
        forall|i: int| 0 <= i < r@.len() && is_text_arg(#[trigger] r@[i]) ==> r@[i] is UnsafeString,
{
    let ghost all = items@;
    let mut out: Vec<LangSpecArgument> = Vec::new();
    let mut run = String::new();
    let mut i: usize = 0;
    let n = items.len();
    for item in it: items
        invariant
            all == it.seq(),
            all.len() == n,
            i == it.index(),
            is_coalesced(out@),
            out@.len() > 0 ==> !is_text_arg(out@.last()),
            forall|k: int| 0 <= k < out@.len() && is_text_arg(#[trigger] out@[k]) ==> out@[k] is UnsafeString,
            text_runs(all.take(i as int)) == text_runs(out@).drop_last().push(run@),
            non_text_items(all.take(i as int)) == non_text_items(out@),
    {
        proof {
            lemma_runs_nonempty(out@);
            assert(all.take(i + 1).drop_last() =~= all.take(i as int));
            assert(all.take(i + 1).last() == item);
        }
        match item {
            LangSpecArgument::UnsafeString(s) => {
                let ghost before = run@;
                push_str(&mut run, s.as_str());
                proof {
                    let r = text_runs(out@).drop_last().push(before);
                    assert(r.update(r.len() - 1, r.last() + s@) =~= text_runs(out@).drop_last().push(
                        run@,
                    ));
                }
            },
            LangSpecArgument::SafeString(s) => {
                let ghost before = run@;
                push_str(&mut run, s.as_str());
                proof {
                    let r = text_runs(out@).drop_last().push(before);
                    assert(r.update(r.len() - 1, r.last() + s@) =~= text_runs(out@).drop_last().push(
                        run@,
                    ));
                }
            },
            other => {
                let ghost out0 = out@;
                let ghost run0 = run@;
                if !run.as_str().is_empty() {
                    let t = LangSpecArgument::UnsafeString(run);
                    out.push(t);
                    run = String::new();
                    proof {
                        assert(out@.drop_last() =~= out0);
                        lemma_runs_nonempty(out0);
                        assert(text_runs(out@) =~= text_runs(out0).drop_last().push(run0));
                    }
                } else {
                    proof {
                        assert(run0 =~= Seq::<char>::empty());
                    }
                }
                let ghost out1 = out@;
                out.push(other);
                proof {
                    assert(out@.drop_last() =~= out1);
                    lemma_runs_nonempty(out1);
                    assert(text_runs(out@) =~= text_runs(out1).push(Seq::empty()));
                    assert(text_runs(out0).drop_last().push(run0).push(Seq::<char>::empty())
                        =~= text_runs(out@).drop_last().push(run@));
                    assert(is_coalesced(out@));
                }
            },
        }
        i = i + 1;
    }
    let ghost out0 = out@;
    let ghost run0 = run@;
    if !run.as_str().is_empty() {
        out.push(LangSpecArgument::UnsafeString(run));
        proof {
            assert(out@.drop_last() =~= out0);
            lemma_runs_nonempty(out0);
            assert(is_coalesced(out@));
        }
    }
    proof {
        assert(all.take(i as int) =~= all);
        lemma_runs_nonempty(out0);
        if run0.len() == 0 {
            assert(run0 =~= Seq::<char>::empty());
            assert(text_runs(out0).drop_last().push(run0) =~= text_runs(out0));
        }
    }
    out
}

// ---------------------------------------------------------------------------
// Building blocks of the intermediate form
// ---------------------------------------------------------------------------

fn source_var() -> (r: LangSpecArgument)
    ensures
        r matches LangSpecArgument::Variable(v) && v@ == "source"@,
{
    LangSpecArgument::Variable(owned("source"))
}

fn text_arg(s: &str) -> (r: LangSpecArgument)
    ensures
        r matches LangSpecArgument::UnsafeString(t) && t@ == s@,
{
    LangSpecArgument::UnsafeString(owned(s))
}

fn node_struct(name: &str, arguments: Vec<LangSpecArgument>) -> (r: LangSpecArgument)
    ensures
        r matches LangSpecArgument::Struct(st) && st.name@ == name@ && st.arguments == arguments,
{
    LangSpecArgument::Struct(LangSpecStruct { name: owned(name), arguments })
}

/// `(start, end)`
fn pos_tuple(start: usize, end: usize) -> (r: LangSpecArgument)
    ensures
        r matches LangSpecArgument::Tuple(v) && v@ == seq![
            LangSpecArgument::Int(start),
            LangSpecArgument::Int(end),
        ],
{
    let mut v: Vec<LangSpecArgument> = Vec::new();
    v.push(LangSpecArgument::Int(start));
    v.push(LangSpecArgument::Int(end));
    proof {
        assert(v@ =~= seq![LangSpecArgument::Int(start), LangSpecArgument::Int(end)]);
    }
    LangSpecArgument::Tuple(v)
}

/// `("var", ...)`
fn var_tuple(vars: &Vec<Token>) -> (r: LangSpecArgument)
    ensures
        r matches LangSpecArgument::Tuple(v) && names_of(v@, vars@),
{
    let mut v: Vec<LangSpecArgument> = Vec::new();
    let mut i: usize = 0;
    while i < vars.len()
        invariant
            i <= vars@.len(),
            names_of(v@, vars@.take(i as int)),
        decreases vars@.len() - i,
    {
        v.push(LangSpecArgument::SafeString(vars[i].content.clone()));
        i = i + 1;
    }
    LangSpecArgument::Tuple(v)
}

/// The variables of `vars` whose name is not yet in `acc`, appended to it.
fn add_vars(acc: &mut Vec<Token>, vars: &Vec<Token>)
    ensures
        final(acc)@ == with_new_names(old(acc)@, vars@, Seq::empty()),
{
    let ghost acc0 = acc@;
    let mut i: usize = 0;
    while i < vars.len()
        invariant
            i <= vars@.len(),
            acc0 == old(acc)@,
            acc@ == with_new_names(acc0, vars@.take(i as int), Seq::empty()),
        decreases vars@.len() - i,
    {
        let mut seen = false;
        let mut j: usize = 0;
        while j < acc.len() && !seen
            invariant
                j <= acc@.len(),
                i < vars@.len(),
                seen ==> has_name(acc@, vars@[i as int].content@),
                !seen ==> forall|k: int| 0 <= k < j ==> acc@[k].content@ != vars@[i as int].content@,
            decreases acc@.len() - j,
        {
            if acc[j].content == vars[i].content {
                seen = true;
            }
            j = j + 1;
        }
        proof {
            let vt = vars@.take(i + 1);
            assert(vt.drop_last() =~= vars@.take(i as int));
            assert(vt.last() == vars@[i as int]);
            if !seen {
                assert(j == acc@.len());
            }
        }
        if !seen {
            acc.push(copy_token(&vars[i]));
        }
        i = i + 1;
    }
    proof {
        assert(vars@.take(vars@.len() as int) =~= vars@);
    }
}

/// The name of the struct an attribute of kind `k` becomes.
pub open spec fn attr_node_name(k: AttrKind) -> Seq<char> {
    match k {
        AttrKind::Boolean => "BoolHtmlAttr"@,
        AttrKind::Static => "StaticHtmlAttr"@,
        AttrKind::Expression => "ExprHtmlAttr"@,
        AttrKind::Template => TEMPLATE_ATTR_NODE@,
    }
}

/// Where the source of an attribute ends: past the closing quote of a
/// quoted value.
pub open spec fn attr_end(a: TagAttr) -> usize {
    match a.value {
        Some(v) => if a.quoted && v.end_index < usize::MAX {
            (v.end_index + 1) as usize
        } else {
            v.end_index
        },
        None => a.key.end_index,
    }
}

/// Whether `r` is the struct of attribute `a`:
/// `Name(source, (start, end), key[, value][, (var...)])`, the value when
/// there is one, the variables when the value is computed at render time.
pub open spec fn attr_struct_of(a: TagAttr, r: LangSpecArgument) -> bool {
    let nv: int = if a.value is Some {
        1
    } else {
        0
    };
    let dynamic = a.kind == AttrKind::Expression || a.kind == AttrKind::Template;
    match r {
        LangSpecArgument::Struct(st) => {
            let args = st.arguments@;
            &&& st.name@ == attr_node_name(a.kind)
            &&& args.len() == 3 + nv + (if dynamic {
                1int
            } else {
                0int
            })
            &&& args[0] matches LangSpecArgument::Variable(v) && v@ == "source"@
            &&& args[1] matches LangSpecArgument::Tuple(t) && t@ == seq![
                LangSpecArgument::Int(a.key.start_index),
                LangSpecArgument::Int(attr_end(a)),
            ]
            &&& args[2] == LangSpecArgument::UnsafeString(a.key.content)
            &&& (a.value matches Some(v) ==> args[3] == LangSpecArgument::UnsafeString(v.content))
            &&& (dynamic ==> (args[3 + nv] matches LangSpecArgument::Tuple(t) && names_of(
                t@,
                a.used_vars@,
            )))
        },
        _ => false,
    }
}

/// One attribute as a struct: `StaticHtmlAttr(source, (start, end), key, value)`,
/// `BoolHtmlAttr(source, (start, end), key)`, or
/// `ExprHtmlAttr`/`TemplateHtmlAttr(source, (start, end), key, value, (var...))`.
fn attr_struct(a: TagAttr) -> (r: LangSpecArgument)
    ensures
        r is Struct,
        attr_struct_of(a, r),
{
    let ghost a0 = a;
    let start = a.key.start_index;
    let end = match &a.value {
        Some(v) => {
            if a.quoted && v.end_index < usize::MAX {
                v.end_index + 1
            } else {
                v.end_index
            }
        },
        None => a.key.end_index,
    };
    let mut args: Vec<LangSpecArgument> = Vec::new();
    args.push(source_var());
    args.push(pos_tuple(start, end));
    args.push(LangSpecArgument::UnsafeString(a.key.content));
    let name = match a.kind {
        AttrKind::Boolean => "BoolHtmlAttr",
        AttrKind::Static => "StaticHtmlAttr",
        AttrKind::Expression => "ExprHtmlAttr",
        AttrKind::Template => TEMPLATE_ATTR_NODE,
    };
    match a.value {
        Some(v) => {
            args.push(LangSpecArgument::UnsafeString(v.content));
        },
        None => {},
    }
    match a.kind {
        AttrKind::Expression | AttrKind::Template => {
            args.push(var_tuple(&a.used_vars));
        },
        _ => {},
    }
    node_struct(name, args)
}

/// The variables the attributes of `attrs` read, each name once, in the
/// order in which they are first read.
pub open spec fn attrs_read(attrs: Seq<TagAttr>) -> Seq<Token>
    decreases attrs.len(),
{
    if attrs.len() == 0 {
        Seq::empty()
    } else {
        with_new_names(attrs_read(attrs.drop_last()), attrs.last().used_vars@, Seq::empty())
    }
}

/// `(attr, ...)`, and the variables the attributes read.
fn attrs_tuple(attrs: Vec<TagAttr>) -> (r: (LangSpecArgument, Vec<Token>))
    ensures
        r.0 matches LangSpecArgument::Tuple(v) && v@.len() == attrs@.len() && forall|k: int|
            0 <= k < v@.len() ==> attr_struct_of(attrs@[k], #[trigger] v@[k]),
        r.1@ == attrs_read(attrs@),
{
    let ghost all = attrs@;
    let mut v: Vec<LangSpecArgument> = Vec::new();
    let mut vars: Vec<Token> = Vec::new();
    proof {
        assert(all.take(0) =~= Seq::<TagAttr>::empty());
    }
    for a in it: attrs
        invariant
            it.seq() == all,
            v@.len() == it.index(),
            forall|k: int| 0 <= k < v@.len() ==> attr_struct_of(all[k], #[trigger] v@[k]),
            vars@ == attrs_read(all.take(it.index() as int)),
    {
        proof {
            let at = all.take(it.index() + 1);
            assert(at.drop_last() =~= all.take(it.index() as int));
            assert(at.last() == all[it.index() as int]);
        }
        add_vars(&mut vars, &a.used_vars);
        v.push(attr_struct(a));
    }
    proof {
        assert(all.take(all.len() as int) =~= all);
    }
    (LangSpecArgument::Tuple(v), vars)
}

/// Whether an attribute's value is computed at render time.
fn is_dynamic(a: &TagAttr) -> (r: bool)
    ensures
        r == (a.kind == AttrKind::Expression || a.kind == AttrKind::Template),
{
    match a.kind {
        AttrKind::Expression | AttrKind::Template => true,
        _ => false,
    }
}

// ---------------------------------------------------------------------------
// Tags
// ---------------------------------------------------------------------------

/// The node struct a built-in tag (other than the control-flow tags and
/// `<c-raw>`) becomes.
pub open spec fn builtin_struct(name: Seq<char>) -> Option<Seq<char>> {
    if name == "c-slot"@ {
        Some("SlotNode"@)
    } else if name == "c-fill"@ {
        Some("FillNode"@)
    } else if name == "c-component"@ {
        Some("DynamicComponentNode"@)
    } else if name == "c-element"@ {
        Some("DynamicElementNode"@)
    } else if name == "c-provide"@ {
        Some("ProvideNode"@)
    } else if name == "c-css"@ {
        Some("CssNode"@)
    } else if name == "c-js"@ {
        Some("JsNode"@)
    } else if name == "c-error-fallback"@ {
        Some("ErrorFallbackNode"@)
    } else {
        None
    }
}

/// The built-in tags: `<c-slot>`, `<c-fill>`, `<c-component>`,
/// `<c-element>`, `<c-provide>`, `<c-css>`, `<c-js>` and
/// `<c-error-fallback>`.
pub open spec fn builtin_tag_name(name: Seq<char>) -> bool {
    ||| name == seq!['c', '-', 's', 'l', 'o', 't']
    ||| name == seq!['c', '-', 'f', 'i', 'l', 'l']
    ||| name == seq!['c', '-', 'c', 'o', 'm', 'p', 'o', 'n', 'e', 'n', 't']
    ||| name == seq!['c', '-', 'e', 'l', 'e', 'm', 'e', 'n', 't']
    ||| name == seq!['c', '-', 'p', 'r', 'o', 'v', 'i', 'd', 'e']
    ||| name == seq!['c', '-', 'c', 's', 's']
    ||| name == seq!['c', '-', 'j', 's']
    ||| name == seq![
        'c', '-', 'e', 'r', 'r', 'o', 'r', '-', 'f', 'a', 'l', 'l', 'b', 'a', 'c', 'k',
    ]
}

/// A built-in tag is never a child component: it compiles to a struct of
/// its own (`<c-fill>` to `FillNode`, `<c-slot>` to `SlotNode`, and so on),
/// and the tags with a struct of their own are just the built-in ones.
pub proof fn lemma_builtin_tags(name: Seq<char>)
    ensures
        builtin_tag_name(name) ==> builtin_struct(name) is Some && !component_name(name)
            && builtin_struct(name) != Some(COMPONENT_NODE@),
        builtin_struct(name) is Some ==> builtin_tag_name(name),
        name == seq!['c', '-', 's', 'l', 'o', 't'] ==> builtin_struct(name) == Some(
            seq!['S', 'l', 'o', 't', 'N', 'o', 'd', 'e'],
        ),
        name == seq!['c', '-', 'f', 'i', 'l', 'l'] ==> builtin_struct(name) == Some(
            seq!['F', 'i', 'l', 'l', 'N', 'o', 'd', 'e'],
        ),
        name == seq!['c', '-', 'p', 'r', 'o', 'v', 'i', 'd', 'e'] ==> builtin_struct(name) == Some(
            seq!['P', 'r', 'o', 'v', 'i', 'd', 'e', 'N', 'o', 'd', 'e'],
        ),
        name == seq!['c', '-', 'c', 's', 's'] ==> builtin_struct(name) == Some(
            seq!['C', 's', 's', 'N', 'o', 'd', 'e'],
        ),
        name == seq!['c', '-', 'j', 's'] ==> builtin_struct(name) == Some(
            seq!['J', 's', 'N', 'o', 'd', 'e'],
        ),
        name == seq!['c', '-', 'c', 'o', 'm', 'p', 'o', 'n', 'e', 'n', 't'] ==> builtin_struct(name)
            == Some("DynamicComponentNode"@),
        name == seq!['c', '-', 'e', 'l', 'e', 'm', 'e', 'n', 't'] ==> builtin_struct(name) == Some(
            "DynamicElementNode"@,
        ),
        name == seq![
            'c', '-', 'e', 'r', 'r', 'o', 'r', '-', 'f', 'a', 'l', 'l', 'b', 'a', 'c', 'k',
        ] ==> builtin_struct(name) == Some("ErrorFallbackNode"@),
{
    reveal_strlit("c-slot");
    assert("c-slot"@ =~= seq!['c', '-', 's', 'l', 'o', 't']);
    reveal_strlit("c-fill");
    assert("c-fill"@ =~= seq!['c', '-', 'f', 'i', 'l', 'l']);
    reveal_strlit("c-component");
    assert("c-component"@ =~= seq!['c', '-', 'c', 'o', 'm', 'p', 'o', 'n', 'e', 'n', 't']);
    reveal_strlit("c-element");
    assert("c-element"@ =~= seq!['c', '-', 'e', 'l', 'e', 'm', 'e', 'n', 't']);
    reveal_strlit("c-provide");
    assert("c-provide"@ =~= seq!['c', '-', 'p', 'r', 'o', 'v', 'i', 'd', 'e']);
    reveal_strlit("c-css");
    assert("c-css"@ =~= seq!['c', '-', 'c', 's', 's']);
    reveal_strlit("c-js");
    assert("c-js"@ =~= seq!['c', '-', 'j', 's']);
    reveal_strlit("c-error-fallback");
    assert("c-error-fallback"@ =~= seq!['c', '-', 'e', 'r', 'r', 'o', 'r', '-', 'f', 'a', 'l', 'l', 'b', 'a', 'c', 'k']);
    reveal_strlit("SlotNode");
    assert("SlotNode"@ =~= seq!['S', 'l', 'o', 't', 'N', 'o', 'd', 'e']);
    reveal_strlit("FillNode");
    assert("FillNode"@ =~= seq!['F', 'i', 'l', 'l', 'N', 'o', 'd', 'e']);
    reveal_strlit("ProvideNode");
    assert("ProvideNode"@ =~= seq!['P', 'r', 'o', 'v', 'i', 'd', 'e', 'N', 'o', 'd', 'e']);
    reveal_strlit("CssNode");
    assert("CssNode"@ =~= seq!['C', 's', 's', 'N', 'o', 'd', 'e']);
    reveal_strlit("JsNode");
    assert("JsNode"@ =~= seq!['J', 's', 'N', 'o', 'd', 'e']);
    reveal_strlit("DynamicComponentNode");
    assert("DynamicComponentNode"@ =~= seq!['D', 'y', 'n', 'a', 'm', 'i', 'c', 'C', 'o', 'm', 'p', 'o', 'n', 'e', 'n', 't', 'N', 'o', 'd', 'e']);
    reveal_strlit("DynamicElementNode");
    assert("DynamicElementNode"@ =~= seq!['D', 'y', 'n', 'a', 'm', 'i', 'c', 'E', 'l', 'e', 'm', 'e', 'n', 't', 'N', 'o', 'd', 'e']);
    reveal_strlit("ErrorFallbackNode");
    assert("ErrorFallbackNode"@ =~= seq!['E', 'r', 'r', 'o', 'r', 'F', 'a', 'l', 'l', 'b', 'a', 'c', 'k', 'N', 'o', 'd', 'e']);
    reveal_strlit("ComponentNode");
    assert("ComponentNode"@ =~= seq!['C', 'o', 'm', 'p', 'o', 'n', 'e', 'n', 't', 'N', 'o', 'd', 'e']);
    assert(COMPONENT_NODE@ == "ComponentNode"@);
}

/// A built-in tag contributes the struct of its own, never a
/// `ComponentNode`.
pub proof fn lemma_builtin_heads(n: Node)
    requires
        builtin_tag_name(n.start_tag.name.content@),
    ensures
        element_heads(TemplateElement::Node(n)) == seq![
            NodeHead::Tag { name: builtin_struct(n.start_tag.name.content@)->Some_0, node: n },
        ],
        builtin_struct(n.start_tag.name.content@)->Some_0 != COMPONENT_NODE@,
{
    let name = n.start_tag.name.content@;
    lemma_builtin_tags(name);
    reveal_strlit("c-if");
    reveal_strlit("c-elif");
    reveal_strlit("c-else");
    reveal_strlit("c-for");
    reveal_strlit("c-empty");
    reveal_strlit("c-raw");
    assert(!flow_or_raw_name(name));
}

/// Whether `name` is one of the control-flow tags or `<c-raw>`.
pub open spec fn flow_or_raw_name(name: Seq<char>) -> bool {
    ||| name == "c-if"@
    ||| name == "c-elif"@
    ||| name == "c-else"@
    ||| name == "c-for"@
    ||| name == "c-empty"@
    ||| name == "c-raw"@
}

/// Whether `name` is that of a child component: a `c-` name that no
/// built-in tag has.
pub open spec fn component_name(name: Seq<char>) -> bool {
    is_c_name(name) && !flow_or_raw_name(name) && builtin_struct(name) is None
}

/// What is expected of one node struct of the output.
pub enum NodeHead {
    /// The `ExprNode` of interpolation `x`.
    Expr { x: ExprElement },
    /// The `ElementAttrsNode` of the start tag at `start..end`, whose
    /// attributes are `attrs`.
    Attrs { start: int, end: int, attrs: Seq<TagAttr> },
    /// The struct named `name` of tag `node`: `Name(source, (start, end),
    /// (attr, ...), [body...], (var, ...))`.
    Tag { name: Seq<char>, node: Node },
    /// The `IfNode` (`ForNode` when `is_for`) of a control-flow group whose
    /// branch tags are `members`.
    Group { is_for: bool, members: Seq<Node> },
}

/// Whether `items` is what compiling `body` gives, looking `d` levels of
/// nested bodies deep: coalesced, its runs of text those of the body's
/// markup; for static markup its text as one string (nothing when empty);
/// for markup with interpolations its runs of text between their `ExprNode`
/// structs; and, below the last level looked at, its node structs those the
/// body's elements contribute.
pub open spec fn body_compiled(body: Option<Template>, items: Seq<LangSpecArgument>, d: nat) -> bool
    decreases d, 1nat,
{
    match body {
        Some(t) => {
            &&& is_coalesced(items)
            &&& unsafe_texts(items)
            &&& text_runs(items) == markup_runs(t)
            &&& template_static(t) ==> if template_text(t).len() == 0 {
                items.len() == 0
            } else {
                items.len() == 1 && is_text_arg(items[0]) && arg_text(items[0]) == template_text(t)
            }
            &&& template_interp(t) ==> text_runs(items) == template_runs(t) && expr_structs_of(
                non_text_items(items),
                template_exprs(t),
            )
            &&& d > 0 ==> fits_all(non_text_items(items), elements_heads(t.elements@), (d - 1) as nat)
        },
        None => items.len() == 0,
    }
}

/// Whether `b` is the branch of tag `n`: `((start, end), (attr, ...),
/// [body...], (introduced, ...))`, its body compiled (`d` levels deep).
pub open spec fn branch_of(n: Node, b: LangSpecArgument, d: nat) -> bool
    decreases d, 2nat,
{
    match b {
        LangSpecArgument::Tuple(parts) => {
            &&& parts@.len() == 4
            &&& parts@[0] matches LangSpecArgument::Tuple(p) && p@ == seq![
                LangSpecArgument::Int(node_span_of(n).0 as usize),
                LangSpecArgument::Int(node_span_of(n).1 as usize),
            ]
            &&& parts@[1] matches LangSpecArgument::Tuple(v) && v@.len()
                == n.start_tag.attrs@.len() && forall|k: int|
                0 <= k < v@.len() ==> attr_struct_of(n.start_tag.attrs@[k], #[trigger] v@[k])
            &&& parts@[2] matches LangSpecArgument::List(items) && body_compiled(n.body, items@, d)
            &&& parts@[3] matches LangSpecArgument::Tuple(t) && names_of(t@, n.introduced_vars@)
        },
        _ => false,
    }
}

/// The variables a control-flow group reads: those of its first branch tag,
/// then each new name that a later one reads, in order.
pub open spec fn group_used(members: Seq<Node>) -> Seq<Token>
    decreases members.len(),
{
    if members.len() <= 1 {
        if members.len() == 1 {
            members[0].used_vars@
        } else {
            Seq::empty()
        }
    } else {
        with_new_names(group_used(members.drop_last()), members.last().used_vars@, Seq::empty())
    }
}

/// Every name that some branch tag of a group reads, the first or any later
/// one, is among the group's variables.
pub proof fn lemma_group_used_covers(members: Seq<Node>)
    ensures
        forall|k: int, j: int|
            0 <= k < members.len() && 0 <= j < members[k].used_vars@.len() ==> has_name(
                group_used(members),
                (#[trigger] members[k].used_vars@[j]).content@,
            ),
    decreases members.len(),
{
    if members.len() == 1 {
        assert forall|k: int, j: int|
            0 <= k < members.len() && 0 <= j < members[k].used_vars@.len() implies has_name(
            group_used(members),
            (#[trigger] members[k].used_vars@[j]).content@,
        ) by {
            assert(group_used(members)[j] == members[0].used_vars@[j]);
        }
    } else if members.len() > 1 {
        let p = members.drop_last();
        lemma_group_used_covers(p);
        let from = members.last().used_vars@;
        lemma_with_new_names_covers(group_used(p), from, Seq::empty());
        assert forall|k: int, j: int|
            0 <= k < members.len() && 0 <= j < members[k].used_vars@.len() implies has_name(
            group_used(members),
            (#[trigger] members[k].used_vars@[j]).content@,
        ) by {
            if k < p.len() {
                assert(members[k] == p[k]);
                assert(has_name(group_used(p), p[k].used_vars@[j].content@));
            } else {
                assert(!has_name(Seq::<Token>::empty(), from[j].content@));
            }
        }
    }
}

/// Each variable of a group is one that some branch tag of it reads.
pub proof fn lemma_group_used_from(members: Seq<Node>, m: int)
    requires
        0 <= m < group_used(members).len(),
    ensures
        exists|k: int, j: int|
            0 <= k < members.len() && 0 <= j < members[k].used_vars@.len() && group_used(
                members,
            )[m] == (#[trigger] members[k].used_vars@[j]),
    decreases members.len(),
{
    let g = group_used(members);
    if members.len() == 1 {
        assert(g[m] == members[0].used_vars@[m]);
    } else {
        let p = members.drop_last();
        let from = members.last().used_vars@;
        let gp = group_used(p);
        lemma_with_new_names_from(gp, from, Seq::empty());
        if m < gp.len() {
            assert(g[m] == gp[m]);
            lemma_group_used_from(p, m);
            let (k, j) = choose|k: int, j: int|
                0 <= k < p.len() && 0 <= j < p[k].used_vars@.len() && gp[m]
                    == (#[trigger] p[k].used_vars@[j]);
            assert(p[k] == members[k]);
            assert(members[k].used_vars@[j] == g[m]);
        } else {
            let j = choose|j: int| 0 <= j < from.len() && #[trigger] g[m] == from[j];
            let k = members.len() - 1;
            assert(members[k].used_vars@ == from);
            assert(members[k].used_vars@[j] == g[m]);
        }
    }
}

/// The struct of a control-flow group names, among the variables it
/// records, every variable that any of its branch tags reads.
#[verifier::spinoff_prover]
#[verifier::rlimit(40)]
pub proof fn lemma_group_struct_reads(a: LangSpecArgument, is_for: bool, members: Seq<Node>, d: nat)
    requires
        fits(a, NodeHead::Group { is_for, members }, d),
    ensures
        a matches LangSpecArgument::Struct(st) && st.arguments@.len() == 3 && (
        st.arguments@[2] matches LangSpecArgument::Tuple(t) && forall|k: int, j: int|
            0 <= k < members.len() && 0 <= j < members[k].used_vars@.len() ==> exists|i: int|
                0 <= i < t@.len() && #[trigger] t@[i] == LangSpecArgument::SafeString(
                    t@[i]->SafeString_0,
                ) && t@[i]->SafeString_0@ == (#[trigger] members[k].used_vars@[j]).content@),
{
    lemma_group_used_covers(members);
    assert(a is Struct);
    let st = a->Struct_0;
    assert(st.arguments@.len() == 3);
    assert(st.arguments@[2] is Tuple);
    assert(names_of(st.arguments@[2]->Tuple_0@, group_used(members)));
    let t = st.arguments@[2]->Tuple_0;
    let g = group_used(members);
    assert forall|k: int, j: int|
        0 <= k < members.len() && 0 <= j < members[k].used_vars@.len() implies exists|i: int|
        0 <= i < t@.len() && #[trigger] t@[i] == LangSpecArgument::SafeString(t@[i]->SafeString_0)
            && t@[i]->SafeString_0@ == (#[trigger] members[k].used_vars@[j]).content@ by {
        assert(has_name(g, members[k].used_vars@[j].content@));
        let i = choose|i: int| 0 <= i < g.len() && (#[trigger] g[i]).content@
            == members[k].used_vars@[j].content@;
        assert(t@[i] is SafeString);
    }
}

/// Whether item `a` is a node struct as `h` expects, the bodies it records
/// compiled (`d` levels deep).
pub open spec fn fits(a: LangSpecArgument, h: NodeHead, d: nat) -> bool
    decreases d, 3nat,
{
    match a {
        LangSpecArgument::Struct(st) => {
            let args = st.arguments@;
            match h {
                NodeHead::Expr { x } => expr_struct_of(a, x),
                NodeHead::Attrs { start, end, attrs } => {
                    &&& st.name@ == ELEMENT_ATTRS_NODE@
                    &&& args.len() == 4
                    &&& args[0] matches LangSpecArgument::Variable(s) && s@ == "source"@
                    &&& records_pos(args, start, end)
                    &&& args[3] matches LangSpecArgument::Tuple(t) && names_of(t@, attrs_read(attrs))
                    &&& args.len() > 2
                    &&& args[2] matches LangSpecArgument::Tuple(v) && v@.len() == attrs.len()
                        && forall|k: int|
                        0 <= k < attrs.len() ==> attr_struct_of(attrs[k], #[trigger] v@[k])
                },
                NodeHead::Tag { name, node } => {
                    &&& st.name@ == name
                    &&& args.len() == 5
                    &&& args[0] matches LangSpecArgument::Variable(s) && s@ == "source"@
                    &&& args[4] matches LangSpecArgument::Tuple(t) && names_of(t@, node.used_vars@)
                    &&& records_pos(args, node_span_of(node).0, node_span_of(node).1)
                    &&& args.len() > 3
                    &&& args[2] matches LangSpecArgument::Tuple(v) && v@.len()
                        == node.start_tag.attrs@.len() && forall|k: int|
                        0 <= k < v@.len() ==> attr_struct_of(
                            node.start_tag.attrs@[k],
                            #[trigger] v@[k],
                        )
                    &&& args[3] matches LangSpecArgument::List(items) && body_compiled(
                        node.body,
                        items@,
                        d,
                    )
                },
                NodeHead::Group { is_for, members } => {
                    &&& st.name@ == (if is_for {
                        FOR_NODE@
                    } else {
                        IF_NODE@
                    })
                    &&& args.len() == 3
                    &&& args[0] matches LangSpecArgument::Variable(s) && s@ == "source"@
                    &&& args[2] matches LangSpecArgument::Tuple(t) && names_of(t@, group_used(members))
                    &&& args.len() > 1
                    &&& args[1] matches LangSpecArgument::Tuple(bs) && bs@.len() == members.len()
                        && forall|k: int|
                        0 <= k < members.len() ==> branch_of(members[k], #[trigger] bs@[k], d)
                },
            }
        },
        _ => false,
    }
}

/// Whether the second argument of a struct is the position pair `(s, e)`.
pub open spec fn records_pos(args: Seq<LangSpecArgument>, s: int, e: int) -> bool {
    &&& args.len() > 1
    &&& args[1] matches LangSpecArgument::Tuple(t) && t@ == seq![
        LangSpecArgument::Int(s as usize),
        LangSpecArgument::Int(e as usize),
    ]
}

/// Whether the items of `items` are, one for one, node structs as `hs`
/// expects (`d` levels deep).
pub open spec fn fits_all(items: Seq<LangSpecArgument>, hs: Seq<NodeHead>, d: nat) -> bool
    decreases d, 4nat,
{
    &&& items.len() == hs.len()
    &&& forall|k: int| 0 <= k < items.len() ==> fits(#[trigger] items[k], hs[k], d)
}

/// Whether item `a` is a node struct as `h` expects, at every depth.
pub open spec fn fits_always(a: LangSpecArgument, h: NodeHead) -> bool {
    forall|d: nat| #[trigger] fits(a, h, d)
}

/// Whether the items of `items` are, one for one, node structs as `hs`
/// expects, nested bodies included, at every depth.
pub open spec fn fits_deep(items: Seq<LangSpecArgument>, hs: Seq<NodeHead>) -> bool {
    forall|d: nat| #[trigger] fits_all(items, hs, d)
}

/// Whether `b` is the branch of tag `n` at every depth.
pub open spec fn branch_always(n: Node, b: LangSpecArgument) -> bool {
    forall|d: nat| #[trigger] branch_of(n, b, d)
}

/// Where a node stands in the source: from its start tag to the end of its
/// end tag, or of its start tag when it has none.
pub open spec fn node_span_of(n: Node) -> (int, int) {
    (
        n.start_tag.token.start_index as int,
        match n.end_tag {
            Some(et) => et.token.end_index as int,
            None => n.start_tag.token.end_index as int,
        },
    )
}

/// The node structs an element outside any control-flow group contributes
/// to the body it stands in: an interpolation its `ExprNode`; a built-in tag
/// or a child component its own struct; `<c-raw>` none; and a plain HTML
/// element the `ElementAttrsNode` of its start tag when an attribute is
/// dynamic, then those of its body.
pub open spec fn element_heads(e: TemplateElement) -> Seq<NodeHead>
    decreases e, 1nat,
{
    match e {
        TemplateElement::Text(_) => Seq::empty(),
        TemplateElement::Expr(x) => seq![NodeHead::Expr { x }],
        TemplateElement::Node(n) => {
            let name = n.start_tag.name.content@;
            let span = node_span_of(n);
            if flow_or_raw_name(name) {
                Seq::empty()
            } else if builtin_struct(name) is Some {
                seq![NodeHead::Tag { name: builtin_struct(name)->Some_0, node: n }]
            } else if is_c_name(name) {
                seq![NodeHead::Tag { name: COMPONENT_NODE@, node: n }]
            } else {
                html_heads(n)
            }
        },
    }
}

/// The node structs a plain HTML element contributes: the
/// `ElementAttrsNode` of its start tag when an attribute is dynamic, then
/// those of its body.
pub open spec fn html_heads(n: Node) -> Seq<NodeHead>
    decreases n, 1nat,
{
    let attrs_head: Seq<NodeHead> = if attrs_static(n.start_tag.attrs@) {
        Seq::empty()
    } else {
        seq![
            NodeHead::Attrs {
                start: n.start_tag.token.start_index as int,
                end: n.start_tag.token.end_index as int,
                attrs: n.start_tag.attrs@,
            },
        ]
    };
    attrs_head + match n.body {
        Some(b) => elements_heads(b.elements@),
        None => Seq::empty(),
    }
}

/// Whether `e` is a branch tag that joins the group before it: `<c-elif>`,
/// `<c-else>` or `<c-empty>`.
pub open spec fn continues_group(e: TemplateElement) -> bool {
    named(e, "c-elif"@) || named(e, "c-else"@) || named(e, "c-empty"@)
}

/// The struct of a control-flow group still open, given as whether it is a
/// loop and its branch tags.
pub open spec fn pending_heads(pending: Option<(bool, Seq<Node>)>) -> Seq<NodeHead> {
    match pending {
        Some((is_for, members)) => seq![NodeHead::Group { is_for, members }],
        None => Seq::empty(),
    }
}

/// Reading the elements `es` in order: the node structs finished, and the
/// control-flow group still open. A `<c-if>` or `<c-for>` opens a group with
/// itself as first branch tag, each `<c-elif>`, `<c-else>` or `<c-empty>`
/// adds itself to it, blank text between them is held, and anything else closes it: its
/// `IfNode`/`ForNode` is finished before what comes next.
pub open spec fn heads_state(es: Seq<TemplateElement>) -> (
    Seq<NodeHead>,
    Option<(bool, Seq<Node>)>,
)
    decreases es, 1nat,
{
    if es.len() == 0 {
        (Seq::empty(), None)
    } else {
        let prev = heads_state(es.drop_last());
        let e = es.last();
        if continues_group(e) {
            (
                prev.0,
                match (prev.1, e) {
                    (Some((f, ms)), TemplateElement::Node(n)) => Some((f, ms.push(n))),
                    _ => None,
                },
            )
        } else if prev.1 is Some && (e matches TemplateElement::Text(t) && blank(t.content@)) {
            prev
        } else {
            let closed = prev.0 + pending_heads(prev.1);
            if named(e, "c-if"@) {
                (closed, Some((false, seq![e->Node_0])))
            } else if named(e, "c-for"@) {
                (closed, Some((true, seq![e->Node_0])))
            } else {
                (closed + element_heads(e), None)
            }
        }
    }
}

/// The node structs the elements of a body contribute, in order.
pub open spec fn elements_heads(es: Seq<TemplateElement>) -> Seq<NodeHead>
    decreases es, 2nat,
{
    heads_state(es).0 + pending_heads(heads_state(es).1)
}

/// The text of the body of `<c-raw>`: its text elements, one after the
/// other.
pub open spec fn raw_text(es: Seq<TemplateElement>) -> Seq<char>
    decreases es.len(),
{
    if es.len() == 0 {
        Seq::empty()
    } else {
        raw_text(es.drop_last()) + match es.last() {
            TemplateElement::Text(t) => t.content@,
            _ => Seq::empty(),
        }
    }
}

/// The runs of text a start tag leaves: the tag as written when every
/// attribute is static, else `<name`, then (after its `ElementAttrsNode`)
/// `>` or `/>`.
pub open spec fn start_runs(n: Node) -> Seq<Seq<char>> {
    if attrs_static(n.start_tag.attrs@) {
        seq![n.start_tag.token.content@]
    } else {
        seq![
            "<"@ + n.start_tag.name.content@,
            if n.start_tag.self_closing {
                "/>"@
            } else {
                ">"@
            },
        ]
    }
}

/// The runs of text a plain HTML element leaves: its start tag, its body,
/// its end tag.
pub open spec fn html_runs(n: Node) -> Seq<Seq<char>>
    decreases n, 1nat,
{
    join_runs(
        join_runs(
            start_runs(n),
            match n.body {
                Some(b) => elements_runs_all(b.elements@),
                None => seq![Seq::empty()],
            },
        ),
        seq![crate::ast::end_text_of(n.end_tag)],
    )
}

/// The runs of text an element outside any control-flow group leaves in the
/// body it stands in, split at the node structs it contributes: text as
/// written; nothing around an interpolation, a component or a built-in tag;
/// the text of a `<c-raw>` body; and for a plain HTML element its markup
/// with the dynamic parts cut out.
pub open spec fn element_runs_all(e: TemplateElement) -> Seq<Seq<char>>
    decreases e, 1nat,
{
    match e {
        TemplateElement::Text(t) => seq![t.content@],
        TemplateElement::Expr(_) => seq![Seq::empty(), Seq::empty()],
        TemplateElement::Node(n) => {
            let name = n.start_tag.name.content@;
            if name == "c-raw"@ {
                seq![
                    match n.body {
                        Some(b) => raw_text(b.elements@),
                        None => Seq::empty(),
                    },
                ]
            } else if flow_or_raw_name(name) {
                seq![Seq::empty()]
            } else if is_c_name(name) {
                seq![Seq::empty(), Seq::empty()]
            } else {
                html_runs(n)
            }
        },
    }
}

/// The runs of text finished when a group closes: its struct, then the
/// blank text held after it.
pub open spec fn flush_runs(runs: Seq<Seq<char>>, pending: bool, held: Seq<char>) -> Seq<
    Seq<char>,
> {
    if pending {
        join_runs(join_runs(runs, seq![Seq::empty(), Seq::empty()]), seq![held])
    } else {
        runs
    }
}

/// Reading the elements `es` in order, as `heads_state` does: the runs of
/// text finished, whether a control-flow group is open, and the blank text
/// held after it. Blank text between branch tags is dropped.
pub open spec fn runs_state(es: Seq<TemplateElement>) -> (Seq<Seq<char>>, bool, Seq<char>)
    decreases es, 1nat,
{
    if es.len() == 0 {
        (seq![Seq::empty()], false, Seq::empty())
    } else {
        let prev = runs_state(es.drop_last());
        let e = es.last();
        if continues_group(e) {
            (prev.0, prev.1, Seq::empty())
        } else if prev.1 && (e matches TemplateElement::Text(t) && blank(t.content@)) {
            (prev.0, true, prev.2 + e->Text_0.content@)
        } else {
            let closed = flush_runs(prev.0, prev.1, prev.2);
            if named(e, "c-if"@) || named(e, "c-for"@) {
                (closed, true, Seq::empty())
            } else {
                (join_runs(closed, element_runs_all(e)), false, Seq::empty())
            }
        }
    }
}

/// The runs of text the elements of a body leave, split at the node structs
/// they contribute.
pub open spec fn elements_runs_all(es: Seq<TemplateElement>) -> Seq<Seq<char>>
    decreases es, 2nat,
{
    flush_runs(runs_state(es).0, runs_state(es).1, runs_state(es).2)
}

/// The runs of text a template compiles to: its markup as written, with
/// the dynamic parts cut out, split where their node structs stand.
pub open spec fn markup_runs(t: Template) -> Seq<Seq<char>> {
    elements_runs_all(t.elements@)
}

/// Runs joined from runs are runs.
proof fn lemma_join_len(a: Seq<Seq<char>>, b: Seq<Seq<char>>)
    requires
        a.len() >= 1,
        b.len() >= 1,
    ensures
        join_runs(a, b).len() == a.len() + b.len() - 1,
{
}

proof fn lemma_element_runs_all_len(e: TemplateElement)
    ensures
        element_runs_all(e).len() >= 1,
    decreases e, 1nat,
{
    if let TemplateElement::Node(n) = e {
        let name = n.start_tag.name.content@;
        if !(name == "c-raw"@) && !flow_or_raw_name(name) && !is_c_name(name) {
            lemma_html_runs_len(n);
        }
    }
}

proof fn lemma_html_runs_len(n: Node)
    ensures
        html_runs(n).len() >= 1,
    decreases n, 1nat,
{
    let b = match n.body {
        Some(b) => {
            assert(decreases_to!(n => b));
            lemma_body_runs_len(b.elements@);
            elements_runs_all(b.elements@)
        },
        None => seq![Seq::empty()],
    };
    lemma_join_len(start_runs(n), b);
    lemma_join_len(join_runs(start_runs(n), b), seq![crate::ast::end_text_of(n.end_tag)]);
}

proof fn lemma_runs_state_len(es: Seq<TemplateElement>)
    ensures
        runs_state(es).0.len() >= 1,
    decreases es, 1nat,
{
    if es.len() > 0 {
        lemma_runs_state_len(es.drop_last());
        let prev = runs_state(es.drop_last());
        lemma_join_len(prev.0, seq![Seq::empty(), Seq::empty()]);
        lemma_join_len(join_runs(prev.0, seq![Seq::empty(), Seq::empty()]), seq![prev.2]);
        let closed = flush_runs(prev.0, prev.1, prev.2);
        lemma_element_runs_all_len(es.last());
        lemma_join_len(closed, element_runs_all(es.last()));
    }
}

proof fn lemma_body_runs_len(es: Seq<TemplateElement>)
    ensures
        elements_runs_all(es).len() >= 1,
    decreases es, 2nat,
{
    lemma_runs_state_len(es);
    let st = runs_state(es);
    lemma_join_len(st.0, seq![Seq::empty(), Seq::empty()]);
    lemma_join_len(join_runs(st.0, seq![Seq::empty(), Seq::empty()]), seq![st.2]);
}

/// The text of string items, one after the other.
pub open spec fn items_text(t: Seq<LangSpecArgument>) -> Seq<char>
    decreases t.len(),
{
    if t.len() == 0 {
        Seq::empty()
    } else {
        items_text(t.drop_last()) + arg_text(t.last())
    }
}

/// The text of strings, one after the other.
pub open spec fn strings_text(t: Seq<String>) -> Seq<char>
    decreases t.len(),
{
    if t.len() == 0 {
        Seq::empty()
    } else {
        strings_text(t.drop_last()) + t.last()@
    }
}

/// Appending string items joins their text to the last run.
proof fn lemma_runs_texts(a: Seq<LangSpecArgument>, t: Seq<LangSpecArgument>)
    requires
        forall|k: int| 0 <= k < t.len() ==> is_text_arg(#[trigger] t[k]),
    ensures
        text_runs(a + t) == join_runs(text_runs(a), seq![items_text(t)]),
    decreases t.len(),
{
    lemma_runs_nonempty(a);
    if t.len() == 0 {
        assert(a + t =~= a);
        lemma_join_unit(text_runs(a));
    } else {
        lemma_runs_texts(a, t.drop_last());
        assert((a + t).drop_last() =~= a + t.drop_last());
        assert((a + t).last() == t.last());
        let r = text_runs(a);
        let x = items_text(t.drop_last());
        assert(r.last() + x + arg_text(t.last()) =~= r.last() + (x + arg_text(t.last())));
        assert(join_runs(join_runs(r, seq![x]), seq![arg_text(t.last())]) =~= join_runs(
            r,
            seq![x + arg_text(t.last())],
        ));
    }
}

/// What flushing appends to the runs of text: the group's struct, then the
/// held text.
proof fn lemma_flush_runs(
    before: Seq<LangSpecArgument>,
    out: Seq<LangSpecArgument>,
    group: Option<Group>,
    held: Seq<String>,
)
    requires
        flushed(before, out, group, held),
        group is None ==> held.len() == 0,
    ensures
        text_runs(out) == join_runs(
            text_runs(before),
            flush_runs(seq![Seq::empty()], group is Some, strings_text(held)),
        ),
{
    let g: int = if group is Some {
        1
    } else {
        0
    };
    let mid = out.subrange(0, before.len() + g);
    let rest = out.skip(before.len() + g);
    assert(out =~= mid + rest);
    assert forall|k: int| 0 <= k < rest.len() implies is_text_arg(#[trigger] rest[k]) by {
        assert(rest[k] == out[before.len() + g + k]);
        assert(out[before.len() + g + k] == LangSpecArgument::UnsafeString(held[k]));
    }
    lemma_runs_texts(mid, rest);
    lemma_items_strings(rest, held);
    lemma_runs_nonempty(before);
    let r = text_runs(before);
    if let Some(gr) = group {
        assert(mid.drop_last() =~= before);
        assert(mid.last() == out[before.len() as int]);
        assert(before.push(mid.last()) =~= mid);
        lemma_push_node_runs(before, mid.last());
        let e = Seq::<char>::empty();
        assert(join_runs(seq![e], seq![e, e]) =~= seq![e, e]);
        assert(join_runs(seq![e, e], seq![strings_text(held)]) =~= seq![e, strings_text(held)]);
        assert(join_runs(join_runs(r, seq![e, e]), seq![strings_text(held)]) =~= join_runs(
            r,
            seq![e, strings_text(held)],
        ));
        assert(flush_runs(seq![e], true, strings_text(held)) == seq![e, strings_text(held)]);
    } else {
        assert(mid =~= before);
        assert(rest.len() == 0);
        assert(strings_text(held) == Seq::<char>::empty());
    }
}

/// Flushing after the runs `r` (joined to `r0`) finishes the runs as
/// `flush_runs` says.
proof fn lemma_flush_step(
    r0: Seq<Seq<char>>,
    r: Seq<Seq<char>>,
    before: Seq<Seq<char>>,
    after: Seq<Seq<char>>,
    pending: bool,
    held: Seq<char>,
)
    requires
        r0.len() >= 1,
        r.len() >= 1,
        before == join_runs(r0, r),
        after == join_runs(before, flush_runs(seq![Seq::empty()], pending, held)),
    ensures
        after == join_runs(r0, flush_runs(r, pending, held)),
        flush_runs(r, pending, held).len() >= 1,
{
    let e = Seq::<char>::empty();
    let f = flush_runs(seq![e], pending, held);
    if pending {
        assert(join_runs(seq![e], seq![e, e]) =~= seq![e, e]);
        assert(join_runs(seq![e, e], seq![held]) =~= seq![e, e + held]);
        assert(e + held =~= held);
        assert(f == seq![e, held]);
        assert(join_runs(join_runs(r, seq![e, e]), seq![held]) =~= join_runs(r, seq![e, held]));
    } else {
        lemma_join_unit(r);
    }
    lemma_join_assoc(r0, r, f);
}

/// The text of the items a flush appends is the text it held.
proof fn lemma_items_strings(t: Seq<LangSpecArgument>, held: Seq<String>)
    requires
        t.len() == held.len(),
        forall|k: int| 0 <= k < t.len() ==> t[k] == LangSpecArgument::UnsafeString(#[trigger] held[k]),
    ensures
        items_text(t) == strings_text(held),
    decreases t.len(),
{
    if t.len() > 0 {
        lemma_items_strings(t.drop_last(), held.drop_last());
        assert(t.last() == LangSpecArgument::UnsafeString(held.last()));
    }
}

/// Whether `now` is `before` followed by node structs as `hs` expects.
pub open spec fn appended_fits(
    now: Seq<LangSpecArgument>,
    before: Seq<LangSpecArgument>,
    hs: Seq<NodeHead>,
) -> bool {
    &&& before.len() <= now.len()
    &&& now.subrange(0, before.len() as int) == before
    &&& fits_deep(now.skip(before.len() as int), hs)
}

proof fn lemma_appended_none(a: Seq<LangSpecArgument>)
    ensures
        appended_fits(a, a, Seq::empty()),
{
    assert(a.subrange(0, a.len() as int) =~= a);
    assert(a.skip(a.len() as int) =~= Seq::<LangSpecArgument>::empty());
    assert forall|d: nat| #[trigger] fits_all(a.skip(a.len() as int), Seq::empty(), d) by {}
}

proof fn lemma_appended_push(a: Seq<LangSpecArgument>, x: LangSpecArgument, h: NodeHead)
    requires
        fits_always(x, h),
    ensures
        appended_fits(a.push(x), a, seq![h]),
{
    assert(a.push(x).subrange(0, a.len() as int) =~= a);
    assert(a.push(x).skip(a.len() as int) =~= seq![x]);
    assert forall|d: nat| #[trigger] fits_all(a.push(x).skip(a.len() as int), seq![h], d) by {
        assert(fits(x, h, d));
    }
}

proof fn lemma_appended_trans(
    a: Seq<LangSpecArgument>,
    b: Seq<LangSpecArgument>,
    c: Seq<LangSpecArgument>,
    x: Seq<NodeHead>,
    y: Seq<NodeHead>,
)
    requires
        appended_fits(b, a, x),
        appended_fits(c, b, y),
    ensures
        appended_fits(c, a, x + y),
{
    assert(c.subrange(0, a.len() as int) =~= b.subrange(0, a.len() as int));
    let cs = c.skip(a.len() as int);
    assert forall|d: nat| #[trigger] fits_all(cs, x + y, d) by {
        assert(fits_all(b.skip(a.len() as int), x, d));
        assert(fits_all(c.skip(b.len() as int), y, d));
        assert forall|k: int| 0 <= k < cs.len() implies fits(#[trigger] cs[k], (x + y)[k], d) by {
            if k < x.len() {
                assert(cs[k] == b.skip(a.len() as int)[k]);
            } else {
                assert(cs[k] == c.skip(b.len() as int)[k - x.len()]);
            }
        }
    }
}

/// Appending a node struct as `h` expects.
proof fn lemma_appended_node(a: Seq<LangSpecArgument>, x: LangSpecArgument, h: NodeHead)
    requires
        !is_text_arg(x),
        fits_always(x, h),
    ensures
        appended_fits(non_text_items(a.push(x)), non_text_items(a), seq![h]),
{
    assert(a.push(x).drop_last() =~= a);
    lemma_appended_push(non_text_items(a), x, h);
}

const TAG_HTML: u8 = 0;
const TAG_COMPONENT: u8 = 1;
const TAG_IF: u8 = 2;
const TAG_ELIF: u8 = 3;
const TAG_ELSE: u8 = 4;
const TAG_FOR: u8 = 5;
const TAG_EMPTY: u8 = 6;
const TAG_RAW: u8 = 7;
const TAG_BUILTIN: u8 = 8;

/// What a tag name stands for, and for another built-in tag the name of
/// its node struct.
fn tag_kind(name: &str) -> (r: (u8, &'static str))
    ensures
        !is_c_name(name@) ==> r.0 == TAG_HTML,
        (r.0 == TAG_IF) == (name@ == "c-if"@),
        (r.0 == TAG_ELIF) == (name@ == "c-elif"@),
        (r.0 == TAG_ELSE) == (name@ == "c-else"@),
        (r.0 == TAG_FOR) == (name@ == "c-for"@),
        (r.0 == TAG_EMPTY) == (name@ == "c-empty"@),
        (r.0 == TAG_RAW) == (name@ == "c-raw"@),
        (r.0 == TAG_BUILTIN) == (builtin_struct(name@) is Some),
        r.0 == TAG_BUILTIN ==> builtin_struct(name@) == Some(r.1@),
        (r.0 == TAG_COMPONENT) == component_name(name@),
        r.0 == TAG_COMPONENT ==> r.1@ == COMPONENT_NODE@,
        (r.0 == TAG_HTML) == !is_c_name(name@),
{
    proof {
        reveal_strlit("c-if");
        assert("c-if"@ =~= seq!['c', '-', 'i', 'f']);
        reveal_strlit("c-elif");
        assert("c-elif"@ =~= seq!['c', '-', 'e', 'l', 'i', 'f']);
        reveal_strlit("c-else");
        assert("c-else"@ =~= seq!['c', '-', 'e', 'l', 's', 'e']);
        reveal_strlit("c-for");
        assert("c-for"@ =~= seq!['c', '-', 'f', 'o', 'r']);
        reveal_strlit("c-empty");
        assert("c-empty"@ =~= seq!['c', '-', 'e', 'm', 'p', 't', 'y']);
        reveal_strlit("c-raw");
        assert("c-raw"@ =~= seq!['c', '-', 'r', 'a', 'w']);
        reveal_strlit("c-slot");
        assert("c-slot"@ =~= seq!['c', '-', 's', 'l', 'o', 't']);
        reveal_strlit("c-fill");
        assert("c-fill"@ =~= seq!['c', '-', 'f', 'i', 'l', 'l']);
        reveal_strlit("c-component");
        assert("c-component"@ =~= seq!['c', '-', 'c', 'o', 'm', 'p', 'o', 'n', 'e', 'n', 't']);
        reveal_strlit("c-element");
        assert("c-element"@ =~= seq!['c', '-', 'e', 'l', 'e', 'm', 'e', 'n', 't']);
        reveal_strlit("c-provide");
        assert("c-provide"@ =~= seq!['c', '-', 'p', 'r', 'o', 'v', 'i', 'd', 'e']);
        reveal_strlit("c-css");
        assert("c-css"@ =~= seq!['c', '-', 'c', 's', 's']);
        reveal_strlit("c-js");
        assert("c-js"@ =~= seq!['c', '-', 'j', 's']);
        reveal_strlit("c-error-fallback");
        assert("c-error-fallback"@ =~= seq!['c', '-', 'e', 'r', 'r', 'o', 'r', '-', 'f', 'a', 'l', 'l', 'b', 'a', 'c', 'k']);
    }
    if str_eq(name, "c-if") {
        (TAG_IF, IF_NODE)
    } else if str_eq(name, "c-elif") {
        (TAG_ELIF, IF_NODE)
    } else if str_eq(name, "c-else") {
        (TAG_ELSE, IF_NODE)
    } else if str_eq(name, "c-for") {
        (TAG_FOR, FOR_NODE)
    } else if str_eq(name, "c-empty") {
        (TAG_EMPTY, FOR_NODE)
    } else if str_eq(name, "c-raw") {
        (TAG_RAW, "")
    } else if str_eq(name, "c-slot") {
        (TAG_BUILTIN, "SlotNode")
    } else if str_eq(name, "c-fill") {
        (TAG_BUILTIN, "FillNode")
    } else if str_eq(name, "c-component") {
        (TAG_BUILTIN, "DynamicComponentNode")
    } else if str_eq(name, "c-element") {
        (TAG_BUILTIN, "DynamicElementNode")
    } else if str_eq(name, "c-provide") {
        (TAG_BUILTIN, "ProvideNode")
    } else if str_eq(name, "c-css") {
        (TAG_BUILTIN, "CssNode")
    } else if str_eq(name, "c-js") {
        (TAG_BUILTIN, "JsNode")
    } else if str_eq(name, "c-error-fallback") {
        (TAG_BUILTIN, "ErrorFallbackNode")
    } else {
        let chars = str_to_chars(name);
        if chars.len() >= 2 && chars[0] == 'c' && chars[1] == '-' {
            (TAG_COMPONENT, COMPONENT_NODE)
        } else {
            (TAG_HTML, "")
        }
    }
}

/// Where a node starts and ends in the source: from its start tag to the
/// end of its end tag, or of its start tag when it has none.
fn node_span(n: &Node) -> (r: (usize, usize))
    ensures
        r.0 == n.start_tag.token.start_index,
        r.1 == match n.end_tag {
            Some(et) => et.token.end_index,
            None => n.start_tag.token.end_index,
        },
{
    let start = n.start_tag.token.start_index;
    let end = match &n.end_tag {
        Some(et) => et.token.end_index,
        None => n.start_tag.token.end_index,
    };
    (start, end)
}

/// Whether `s` holds only whitespace.
fn is_blank(s: &String) -> (r: bool)
    ensures
        r == blank(s@),
{
    let chars = str_to_chars(s.as_str());
    let mut i: usize = 0;
    while i < chars.len()
        invariant
            i <= chars@.len(),
            chars@ == s@,
            forall|j: int|
                0 <= j < i ==> (#[trigger] chars@[j] == ' ' || chars@[j] == '\t' || chars@[j]
                    == '\n' || chars@[j] == '\r'),
        decreases chars@.len() - i,
    {
        let c = chars[i];
        if !(c == ' ' || c == '\t' || c == '\n' || c == '\r') {
            return false;
        }
        i = i + 1;
    }
    true
}

/// A group of sibling control-flow tags being collected.
struct Group {
    is_for: bool,
    /// Whether the last branch (`<c-else>`, `<c-empty>`) has been seen.
    closed: bool,
    start: usize,
    end: usize,
    branches: Vec<LangSpecArgument>,
    used: Vec<Token>,
    /// The branch tags read so far, one per branch.
    members: Ghost<Seq<Node>>,
}

/// Whether each branch of `g` is that of its tag.
spec fn group_wf(g: Group) -> bool {
    &&& g.branches@.len() == g.members@.len()
    &&& g.members@.len() >= 1
    &&& g.used@ == group_used(g.members@)
    &&& forall|k: int|
        0 <= k < g.branches@.len() ==> branch_always(g.members@[k], #[trigger] g.branches@[k])
}

/// Whether `a` is the node struct of the control-flow group `g`:
/// `ForNode`/`IfNode(source, (branch, ...), (var, ...))`.
spec fn group_struct_of(g: Group, a: LangSpecArgument) -> bool {
    match a {
        LangSpecArgument::Struct(st) => {
            let args = st.arguments@;
            &&& st.name@ == (if g.is_for {
                FOR_NODE
            } else {
                IF_NODE
            })@
            &&& args.len() == 3
            &&& args[0] matches LangSpecArgument::Variable(v) && v@ == "source"@
            &&& args[1] == LangSpecArgument::Tuple(g.branches)
            &&& (args[2] matches LangSpecArgument::Tuple(t) && names_of(t@, g.used@))
        },
        _ => false,
    }
}

/// Whether `out` is `before` followed by the struct of `group` (when there
/// is one) and then the texts `held`, in order.
spec fn flushed(
    before: Seq<LangSpecArgument>,
    out: Seq<LangSpecArgument>,
    group: Option<Group>,
    held: Seq<String>,
) -> bool {
    let g: int = if group is Some {
        1
    } else {
        0
    };
    &&& out.len() == before.len() + g + held.len()
    &&& out.subrange(0, before.len() as int) == before
    &&& (group matches Some(gr) ==> group_struct_of(gr, out[before.len() as int]))
    &&& forall|k: int|
        0 <= k < held.len() ==> out[before.len() + g + k] == LangSpecArgument::UnsafeString(
            #[trigger] held[k],
        )
}

/// The node struct a pending control-flow group will become.
spec fn group_head(g: Group) -> NodeHead {
    NodeHead::Group { is_for: g.is_for, members: g.members@ }
}

/// The open group as `heads_state` tracks it.
spec fn pending_of(group: Option<Group>) -> Option<(bool, Seq<Node>)> {
    match group {
        Some(g) => Some((g.is_for, g.members@)),
        None => None,
    }
}

/// The node struct of the pending group, if any.
spec fn group_heads(group: Option<Group>) -> Seq<NodeHead> {
    match group {
        Some(g) => seq![group_head(g)],
        None => Seq::empty(),
    }
}

/// Appending string items leaves the non-text items as they were.
proof fn lemma_non_text_texts(a: Seq<LangSpecArgument>, t: Seq<LangSpecArgument>)
    requires
        forall|k: int| 0 <= k < t.len() ==> is_text_arg(#[trigger] t[k]),
    ensures
        non_text_items(a + t) == non_text_items(a),
    decreases t.len(),
{
    if t.len() > 0 {
        lemma_non_text_texts(a, t.drop_last());
        assert((a + t).drop_last() =~= a + t.drop_last());
        assert((a + t).last() == t.last());
    } else {
        assert(a + t =~= a);
    }
}

/// The struct of a group whose branches are those of its tags is the node
/// struct the group expects, at every depth.
proof fn lemma_group_fits(g: Group, a: LangSpecArgument)
    requires
        group_wf(g),
        group_struct_of(g, a),
    ensures
        fits_always(a, group_head(g)),
{
    assert forall|d: nat| #[trigger] fits(a, group_head(g), d) by {
        assert forall|k: int| 0 <= k < g.members@.len() implies branch_of(
            g.members@[k],
            #[trigger] g.branches@[k],
            d,
        ) by {
            assert(branch_always(g.members@[k], g.branches@[k]));
        }
    }
}

/// What flushing appends to the non-text items: the struct of the group.
proof fn lemma_flush_heads(
    before: Seq<LangSpecArgument>,
    out: Seq<LangSpecArgument>,
    group: Option<Group>,
    held: Seq<String>,
)
    requires
        flushed(before, out, group, held),
        group matches Some(g) ==> group_wf(g),
    ensures
        appended_fits(non_text_items(out), non_text_items(before), group_heads(group)),
{
    let g: int = if group is Some {
        1
    } else {
        0
    };
    let mid = out.subrange(0, before.len() + g);
    let rest = out.skip(before.len() + g);
    assert(out =~= mid + rest);
    assert forall|k: int| 0 <= k < rest.len() implies is_text_arg(#[trigger] rest[k]) by {
        assert(rest[k] == out[before.len() + g + k]);
        assert(out[before.len() + g + k] == LangSpecArgument::UnsafeString(held[k]));
    }
    lemma_non_text_texts(mid, rest);
    if let Some(gr) = group {
        assert(mid.drop_last() =~= before);
        assert(mid.last() == out[before.len() as int]);
        lemma_group_fits(gr, mid.last());
        lemma_appended_node(before, mid.last(), group_head(gr));
        assert(before.push(mid.last()) =~= mid);
    } else {
        assert(mid =~= before);
        lemma_appended_none(non_text_items(before));
    }
}

/// Emit the collected group (if any) and the whitespace held after it.
fn flush(out: &mut Vec<LangSpecArgument>, group: Option<Group>, held: Vec<String>)
    ensures
        flushed(old(out)@, final(out)@, group, held@),
        group is None && held@.len() == 0 ==> final(out)@ == old(out)@,
{
    let ghost nothing = group is None && held@.len() == 0;
    let ghost hs = held@;
    let ghost before = out@;
    let ghost grp = group;
    let ghost g: int = if group is Some {
        1
    } else {
        0
    };
    match group {
        Some(g) => {
            let mut args: Vec<LangSpecArgument> = Vec::new();
            args.push(source_var());
            args.push(LangSpecArgument::Tuple(g.branches));
            args.push(var_tuple(&g.used));
            out.push(node_struct(if g.is_for { FOR_NODE } else { IF_NODE }, args));
        },
        None => {},
    }
    let ghost out0 = out@;
    proof {
        assert(out0.len() == before.len() + g);
        assert(out0.subrange(0, before.len() as int) =~= before);
    }
    for t in it: held
        invariant
            it.seq() == hs,
            out@.len() == out0.len() + it.index(),
            out@.subrange(0, out0.len() as int) == out0,
            forall|k: int|
                0 <= k < it.index() ==> out@[out0.len() + k] == LangSpecArgument::UnsafeString(
                    #[trigger] hs[k],
                ),
            nothing ==> hs.len() == 0 && out@ == out0,
            nothing ==> out0 == old(out)@,
    {
        let ghost prev = out@;
        out.push(LangSpecArgument::UnsafeString(t));
        proof {
            assert(out@.subrange(0, out0.len() as int) =~= prev.subrange(0, out0.len() as int));
        }
    }
    proof {
        assert(out@.subrange(0, before.len() as int) =~= out0.subrange(0, before.len() as int));
        if grp is Some {
            assert(out@[before.len() as int] == out@.subrange(0, out0.len() as int)[before.len() as int]);
        }
    }
}

/// What `compile_body` states of its result is what `body_compiled` asks.
proof fn lemma_body_compiled(t: Template, items: Seq<LangSpecArgument>)
    requires
        is_coalesced(items),
        unsafe_texts(items),
        text_runs(items) == markup_runs(t),
        template_static(t) ==> non_text_items(items).len() == 0 && text_runs(items) == seq![
            template_text(t),
        ],
        template_interp(t) ==> text_runs(items) == template_runs(t) && expr_structs_of(
            non_text_items(items),
            template_exprs(t),
        ),
        fits_deep(non_text_items(items), elements_heads(t.elements@)),
    ensures
        forall|d: nat| #[trigger] body_compiled(Some(t), items, d),
{
    if template_static(t) {
        lemma_coalesced_text_only(items);
        let tt = template_text(t);
        assert(text_runs(items)[0] == seq![tt][0]);
        if items.len() == 1 {
            assert(seq![arg_text(items[0])][0] == arg_text(items[0]));
            assert(is_text_arg(items[0]));
            assert(arg_text(items[0]).len() > 0);
        }
    }
    assert forall|d: nat| #[trigger] body_compiled(Some(t), items, d) by {
        if d > 0 {
            assert(fits_all(non_text_items(items), elements_heads(t.elements@), (d - 1) as nat));
        }
    }
}

/// One control-flow branch `((start, end), (attr...), [body...], (introduced...))`,
/// with the variables the branch reads.
fn make_branch(n: Node) -> (r: Result<(LangSpecArgument, Vec<Token>), CompileError>)
    ensures
        r matches Err(e) ==> error_of(e, node_error(n)),
        r matches Ok((_, u)) ==> u@ == n.used_vars@,
        r matches Ok((b, _)) ==> branch_always(n, b),
        r is Ok <==> match n.body {
            Some(b) => template_branches_ok(b),
            None => true,
        },
    decreases n, 2nat,
{
    let ghost whole = n;
    let (start, end) = node_span(&n);
    let Node { start_tag, end_tag: _, body, used_vars, introduced_vars } = n;
    let (attrs, _) = attrs_tuple(start_tag.attrs);
    let items = match body {
        Some(b) => {
            proof {
                assert(decreases_to!(whole => b));
            }
            let ghost gb = b;
            let items = match compile_body(b) {
                Ok(items) => items,
                Err(e) => {
                    return Err(e);
                },
            };
            proof {
                lemma_body_compiled(gb, items@);
            }
            items
        },
        None => Vec::new(),
    };
    let mut parts: Vec<LangSpecArgument> = Vec::new();
    parts.push(pos_tuple(start, end));
    parts.push(attrs);
    parts.push(LangSpecArgument::List(items));
    parts.push(var_tuple(&introduced_vars));
    let ghost body_items = parts@[2];
    let b = LangSpecArgument::Tuple(parts);
    proof {
        let v = body_items->List_0@;
        assert forall|d: nat| #[trigger] branch_of(whole, b, d) by {
            assert(body_compiled(whole.body, v, d));
        }
    }
    Ok((b, used_vars))
}

/// The node structs the body of a node contributes.
spec fn body_heads_of(b: Option<Template>) -> Seq<NodeHead> {
    match b {
        Some(t) => elements_heads(t.elements@),
        None => Seq::empty(),
    }
}

/// The node structs `compile_node` appends for a node of kind `kind` whose
/// struct is named `sname`.
spec fn node_heads(n: Node, kind: u8, sname: Seq<char>) -> Seq<NodeHead> {
    if kind == TAG_RAW {
        Seq::empty()
    } else if kind == TAG_COMPONENT || kind == TAG_BUILTIN {
        seq![NodeHead::Tag { name: sname, node: n }]
    } else {
        html_heads(n)
    }
}

/// The runs of text the body of a node leaves.
spec fn opt_body_runs(b: Option<Template>) -> Seq<Seq<char>> {
    match b {
        Some(t) => elements_runs_all(t.elements@),
        None => seq![Seq::empty()],
    }
}

proof fn lemma_opt_body_runs_len(b: Option<Template>)
    ensures
        opt_body_runs(b).len() >= 1,
{
    if let Some(t) = b {
        lemma_body_runs_len(t.elements@);
    }
}

/// The runs of text `compile_node` leaves for a node of kind `kind`.
spec fn node_runs(n: Node, kind: u8) -> Seq<Seq<char>> {
    if kind == TAG_RAW {
        seq![
            match n.body {
                Some(b) => raw_text(b.elements@),
                None => Seq::empty(),
            },
        ]
    } else if kind == TAG_COMPONENT || kind == TAG_BUILTIN {
        seq![Seq::empty(), Seq::empty()]
    } else {
        html_runs(n)
    }
}

/// `a`, then the single run `b`, then the single run `c`.
proof fn lemma_join_two(a: Seq<Seq<char>>, b: Seq<char>, c: Seq<char>)
    requires
        a.len() >= 1,
    ensures
        join_runs(join_runs(a, seq![b]), seq![c]) == join_runs(a, seq![b + c]),
{
    assert(a.last() + b + c =~= a.last() + (b + c));
    assert(join_runs(join_runs(a, seq![b]), seq![c]) =~= join_runs(a, seq![b + c]));
}

/// A tag struct whose recorded body is compiled at every depth is the node
/// struct the tag expects at every depth.
proof fn lemma_tag_fits(a: LangSpecArgument, name: Seq<char>, node: Node, items: Seq<LangSpecArgument>)
    requires
        fits(a, NodeHead::Tag { name, node }, 0),
        a matches LangSpecArgument::Struct(st) && st.arguments@.len() > 3
            && (st.arguments@[3] matches LangSpecArgument::List(v) && v@ == items),
        forall|d: nat| #[trigger] body_compiled(node.body, items, d),
    ensures
        fits_always(a, NodeHead::Tag { name, node }),
{
    assert forall|d: nat| #[trigger] fits(a, NodeHead::Tag { name, node }, d) by {
        assert(body_compiled(node.body, items, d));
    }
}

/// Compile one node that is not part of a control-flow group.
fn compile_node(n: Node, kind: u8, struct_name: &str, out: &mut Vec<LangSpecArgument>) -> (r: Result<
    (),
    CompileError,
>)
    ensures
        r matches Err(e) ==> kind != TAG_RAW && error_of(e, node_error(n)),
        (kind == TAG_RAW) == named(TemplateElement::Node(n), "c-raw"@) ==> (r is Ok
            <==> element_body_ok(TemplateElement::Node(n))),
        kind == TAG_HTML && element_static(TemplateElement::Node(n)) ==> {
            &&& r is Ok
            &&& non_text_items(final(out)@) == non_text_items(old(out)@)
            &&& text_runs(final(out)@) == extend_last(
                text_runs(old(out)@),
                element_text(TemplateElement::Node(n)),
            )
        },
        kind == TAG_HTML && element_interp(TemplateElement::Node(n)) ==> {
            &&& r is Ok
            &&& text_runs(final(out)@) == join_runs(
                text_runs(old(out)@),
                element_runs(TemplateElement::Node(n)),
            )
            &&& exprs_appended(
                non_text_items(final(out)@),
                non_text_items(old(out)@),
                element_exprs(TemplateElement::Node(n)),
            )
        },
        r is Ok && (kind == TAG_HTML || kind == TAG_COMPONENT || kind == TAG_BUILTIN || kind
            == TAG_RAW) ==> appended_fits(
            non_text_items(final(out)@),
            non_text_items(old(out)@),
            node_heads(n, kind, struct_name@),
        ),
        r is Ok && (kind == TAG_HTML || kind == TAG_COMPONENT || kind == TAG_BUILTIN || kind
            == TAG_RAW) ==> text_runs(final(out)@) == join_runs(
            text_runs(old(out)@),
            node_runs(n, kind),
        ),
    decreases n, 2nat,
{
    let ghost whole = n;
    let ghost is_static = kind == TAG_HTML && element_static(TemplateElement::Node(n));
    let ghost is_interp = kind == TAG_HTML && element_interp(TemplateElement::Node(n));
    let ghost out0 = out@;
    proof {
        lemma_runs_nonempty(out0);
    }
    let (start, end) = node_span(&n);
    let Node { start_tag, end_tag, body, used_vars, introduced_vars: _ } = n;
    if kind == TAG_RAW {
        match body {
            Some(b) => {
                let ghost bel = b.elements@;
                proof {
                    assert(bel.take(0) =~= Seq::<TemplateElement>::empty());
                    lemma_join_unit(text_runs(out0));
                }
                for e in it: b.elements
                    invariant
                        it.seq() == bel,
                        non_text_items(out@) == non_text_items(out0),
                        text_runs(out0).len() >= 1,
                        text_runs(out@) == join_runs(
                            text_runs(out0),
                            seq![raw_text(bel.take(it.index() as int))],
                        ),
                {
                    let ghost k = it.index();
                    proof {
                        assert(bel.take(k + 1).drop_last() =~= bel.take(k as int));
                        assert(bel.take(k + 1).last() == bel[k as int]);
                    }
                    match e {
                        TemplateElement::Text(t) => {
                            let x = LangSpecArgument::UnsafeString(t.content);
                            proof {
                                lemma_push_text(out@, x);
                                lemma_push_text_runs(out@, x);
                                lemma_join_two(
                                    text_runs(out0),
                                    raw_text(bel.take(k as int)),
                                    arg_text(x),
                                );
                            }
                            out.push(x);
                        },
                        _ => {
                            proof {
                                assert(raw_text(bel.take(k as int)) + Seq::<char>::empty()
                                    =~= raw_text(bel.take(k as int)));
                            }
                        },
                    }
                }
                proof {
                    assert(bel.take(bel.len() as int) =~= bel);
                }
            },
            None => {
                proof {
                    lemma_join_unit(text_runs(out0));
                }
            },
        }
        proof {
            lemma_appended_none(non_text_items(out0));
        }
        return Ok(());
    }
    if kind == TAG_COMPONENT || kind == TAG_BUILTIN {
        let (attrs, _) = attrs_tuple(start_tag.attrs);
        let items = match body {
            Some(b) => {
                proof {
                    assert(decreases_to!(whole => b));
                }
                let ghost gb = b;
                let items = match compile_body(b) {
                    Ok(items) => items,
                    Err(e) => {
                        return Err(e);
                    },
                };
                proof {
                    lemma_body_compiled(gb, items@);
                }
                items
            },
            None => Vec::new(),
        };
        let mut args: Vec<LangSpecArgument> = Vec::new();
        args.push(source_var());
        args.push(pos_tuple(start, end));
        args.push(attrs);
        args.push(LangSpecArgument::List(items));
        args.push(var_tuple(&used_vars));
        let ghost body_items = args@[3];
        let a = node_struct(struct_name, args);
        proof {
            let items = body_items->List_0@;
            assert forall|d: nat| #[trigger] body_compiled(whole.body, items, d) by {
                if whole.body is None {
                    assert(items.len() == 0);
                }
            }
            let st = a->Struct_0;
            assert(st.arguments@[3] == body_items);
            assert(body_compiled(whole.body, items, 0));
            assert(fits(a, NodeHead::Tag { name: struct_name@, node: whole }, 0));
            lemma_tag_fits(a, struct_name@, whole, items);
            lemma_appended_node(out@, a, NodeHead::Tag { name: struct_name@, node: whole });
            lemma_push_node_runs(out@, a);
        }
        out.push(a);
        return Ok(());
    }
    // A plain HTML element.
    let mut dynamic = false;
    let mut i: usize = 0;
    while i < start_tag.attrs.len()
        invariant
            i <= start_tag.attrs@.len(),
            attrs_static(start_tag.attrs@) ==> !dynamic,
            !dynamic ==> forall|k: int|
                0 <= k < i ==> (#[trigger] start_tag.attrs@[k]).kind == AttrKind::Static
                    || start_tag.attrs@[k].kind == AttrKind::Boolean,
        decreases start_tag.attrs@.len() - i,
    {
        if is_dynamic(&start_tag.attrs[i]) {
            dynamic = true;
        }
        i = i + 1;
    }
    proof {
        assert(dynamic == !attrs_static(start_tag.attrs@));
    }
    if dynamic {
        let mut open = owned("<");
        push_str(&mut open, start_tag.name.content.as_str());
        out.push(LangSpecArgument::UnsafeString(open));
        let tag_start = start_tag.token.start_index;
        let tag_end = start_tag.token.end_index;
        let (attrs, attr_vars) = attrs_tuple(start_tag.attrs);
        let mut args: Vec<LangSpecArgument> = Vec::new();
        args.push(source_var());
        args.push(pos_tuple(tag_start, tag_end));
        args.push(attrs);
        args.push(var_tuple(&attr_vars));
        let a = node_struct(ELEMENT_ATTRS_NODE, args);
        let ghost o1 = out@;
        proof {
            lemma_push_text(out0, o1.last());
            assert(out0.push(o1.last()) =~= o1);
            lemma_appended_none(non_text_items(out0));
            let h = NodeHead::Attrs {
                start: tag_start as int,
                end: tag_end as int,
                attrs: whole.start_tag.attrs@,
            };
            lemma_appended_node(o1, a, h);
            lemma_appended_trans(
                non_text_items(out0),
                non_text_items(o1),
                non_text_items(o1.push(a)),
                Seq::empty(),
                seq![h],
            );
        }
        out.push(a);
        let x = text_arg(if start_tag.self_closing { "/>" } else { ">" });
        proof {
            lemma_push_text(out@, x);
            let e = Seq::<char>::empty();
            let r0 = text_runs(out0);
            let o = arg_text(o1.last());
            lemma_push_text_runs(out0, o1.last());
            lemma_push_node_runs(o1, a);
            lemma_push_text_runs(o1.push(a), x);
            lemma_join_assoc(r0, seq![o], seq![e, e]);
            assert(join_runs(seq![o], seq![e, e]) =~= seq![o, e]);
            lemma_join_assoc(r0, seq![o, e], seq![arg_text(x)]);
            assert(join_runs(seq![o, e], seq![arg_text(x)]) =~= seq![o, arg_text(x)]);
            assert(seq![o, arg_text(x)] == start_runs(whole));
        }
        out.push(x);
    } else {
        let x = LangSpecArgument::UnsafeString(start_tag.token.content);
        proof {
            lemma_push_text(out@, x);
            lemma_push_text_runs(out@, x);
        }
        out.push(x);
    }
    let ghost start_text = start_tag.token.content@;
    let ghost out1 = out@;
    let ghost attrs_head: Seq<NodeHead> = if attrs_static(whole.start_tag.attrs@) {
        Seq::empty()
    } else {
        seq![
            NodeHead::Attrs {
                start: whole.start_tag.token.start_index as int,
                end: whole.start_tag.token.end_index as int,
                attrs: whole.start_tag.attrs@,
            },
        ]
    };
    proof {
        if !dynamic {
            lemma_appended_none(non_text_items(out0));
        }
        assert(appended_fits(non_text_items(out1), non_text_items(out0), attrs_head));
        lemma_runs_nonempty(out1);
        if is_static {
            assert(text_runs(out1) == extend_last(text_runs(out0), start_text));
        }
    }
    let ghost body_text = crate::ast::body_text_of(body);
    let ghost body_runs = body_runs_of(body);
    let ghost body_exprs = body_exprs_of(body);
    let ghost body_heads = body_heads_of(body);
    let ghost body_runs_all = opt_body_runs(body);
    proof {
        if dynamic {
            assert(text_runs(out1) == join_runs(text_runs(out0), start_runs(whole)));
        } else {
            assert(text_runs(out1) == join_runs(text_runs(out0), start_runs(whole)));
        }
        lemma_opt_body_runs_len(body);
    }
    match body {
        Some(b) => {
            proof {
                assert(decreases_to!(whole => b));
                assert(decreases_to!(b => b.elements));
                assert(decreases_to!(b.elements => b.elements@));
            }
            match compile_elements(b.elements, out) {
                Ok(()) => {},
                Err(e) => {
                    return Err(e);
                },
            }
        },
        None => {
            proof {
                lemma_extend_twice(text_runs(out1), Seq::empty(), Seq::empty());
                lemma_join_unit(text_runs(out1));
                lemma_exprs_appended_none(non_text_items(out1));
                lemma_appended_none(non_text_items(out1));
            }
        },
    }
    let ghost out2 = out@;
    proof {
        assert(appended_fits(non_text_items(out2), non_text_items(out1), body_heads));
        lemma_appended_trans(
            non_text_items(out0),
            non_text_items(out1),
            non_text_items(out2),
            attrs_head,
            body_heads,
        );
        lemma_runs_nonempty(out2);
        if is_static {
            assert(text_runs(out2) == extend_last(text_runs(out1), body_text));
        }
    }
    let ghost end_text = crate::ast::end_text_of(end_tag);
    match end_tag {
        Some(et) => {
            let x = LangSpecArgument::UnsafeString(et.token.content);
            proof {
                lemma_push_text(out@, x);
                lemma_push_text_runs(out@, x);
            }
            out.push(x);
        },
        None => {
            proof {
                lemma_extend_twice(text_runs(out2), Seq::empty(), Seq::empty());
                lemma_join_unit(text_runs(out2));
            }
        },
    }
    proof {
        if is_interp {
            let s0 = seq![start_text];
            let e0 = seq![end_text];
            lemma_runs_nonempty(out@);
            if body is None {
                lemma_join_unit(s0);
            }
            if body is Some {
                lemma_elements_runs_len(body->Some_0.elements@);
            }
            lemma_join_assoc(text_runs(out0), s0, body_runs);
            lemma_join_assoc(text_runs(out0), join_runs(s0, body_runs), e0);
            lemma_join_assoc(s0, body_runs, e0);
            lemma_exprs_appended_none(non_text_items(out0));
            lemma_exprs_appended_trans(
                non_text_items(out0),
                non_text_items(out1),
                non_text_items(out2),
                Seq::empty(),
                body_exprs,
            );
            assert(non_text_items(out@) == non_text_items(out2));
            lemma_exprs_appended_none(non_text_items(out2));
            lemma_exprs_appended_trans(
                non_text_items(out0),
                non_text_items(out2),
                non_text_items(out@),
                Seq::empty() + body_exprs,
                Seq::empty(),
            );
            assert(Seq::<ExprElement>::empty() + body_exprs + Seq::<ExprElement>::empty() =~= body_exprs);
        }
    }
    proof {
        if is_static {
            lemma_extend_twice(text_runs(out0), start_text, body_text);
            lemma_extend_twice(text_runs(out0), start_text + body_text, end_text);
            assert(element_text(TemplateElement::Node(whole)) == start_text + body_text + end_text);
        }
        assert(non_text_items(out@) == non_text_items(out2));
        assert(html_heads(whole) == attrs_head + body_heads);
        let r0 = text_runs(out0);
        let sr = start_runs(whole);
        assert(text_runs(out2) == join_runs(text_runs(out1), body_runs_all));
        assert(text_runs(out@) == join_runs(text_runs(out2), seq![end_text]));
        lemma_join_assoc(r0, sr, body_runs_all);
        lemma_join_assoc(r0, join_runs(sr, body_runs_all), seq![end_text]);
        assert(html_runs(whole) == join_runs(join_runs(sr, body_runs_all), seq![end_text]));
    }
    Ok(())
}

fn syntax_error(message: &str) -> (r: CompileError)
    ensures
        r matches CompileError::Syntax(m) && m@ == message@,
{
    CompileError::Syntax(owned(message))
}

/// Compile `elements`, appending the pieces to `out`.
#[verifier::rlimit(100)]
fn compile_elements(elements: Vec<TemplateElement>, out: &mut Vec<LangSpecArgument>) -> (r: Result<
    (),
    CompileError,
>)
    ensures
        r matches Err(e) ==> error_of(e, first_error_before(elements@, elements@.len() as int)),
        r is Ok <==> all_in_place(elements@) && bodies_ok(elements@),
        elements_static(elements@) ==> {
            &&& r is Ok
            &&& non_text_items(final(out)@) == non_text_items(old(out)@)
            &&& text_runs(final(out)@) == extend_last(
                text_runs(old(out)@),
                elements_text(elements@),
            )
        },
        elements_interp(elements@) ==> {
            &&& r is Ok
            &&& text_runs(final(out)@) == join_runs(text_runs(old(out)@), elements_runs(elements@))
            &&& exprs_appended(
                non_text_items(final(out)@),
                non_text_items(old(out)@),
                elements_exprs(elements@),
            )
        },
        r is Ok ==> appended_fits(
            non_text_items(final(out)@),
            non_text_items(old(out)@),
            elements_heads(elements@),
        ),
        r is Ok ==> text_runs(final(out)@) == join_runs(
            text_runs(old(out)@),
            elements_runs_all(elements@),
        ),
    decreases elements@, 0nat,
{
    let ghost all = elements@;
    let ghost out0 = out@;
    let ghost is_static = elements_static(elements@);
    let ghost is_interp = elements_interp(elements@);
    proof {
        lemma_runs_nonempty(out0);
        assert(all.take(0) =~= Seq::<TemplateElement>::empty());
        lemma_extend_twice(text_runs(out0), Seq::empty(), Seq::empty());
        lemma_join_unit(text_runs(out0));
        lemma_exprs_appended_none(non_text_items(out0));
    }
    let n_elements = elements.len();
    let mut group: Option<Group> = None;
    let mut held: Vec<String> = Vec::new();
    let mut i: usize = 0;
    let ghost nt0 = non_text_items(out0);
    let ghost mut done: Seq<NodeHead> = Seq::empty();
    proof {
        lemma_appended_none(nt0);
        assert(heads_state(all.take(0)) == (done, pending_of(group)));
    }
    for e in it: elements
        invariant
            all == it.seq(),
            nt0 == non_text_items(out0),
            appended_fits(non_text_items(out@), nt0, done),
            heads_state(all.take(i as int)) == (done, pending_of(group)),
            group matches Some(g) ==> group_wf(g),
            runs_state(all.take(i as int)).1 == (group is Some),
            runs_state(all.take(i as int)).2 == strings_text(held@),
            text_runs(out@) == join_runs(text_runs(out0), runs_state(all.take(i as int)).0),
            all.len() == n_elements,
            i == it.index(),
            group is None ==> held@.len() == 0,
            out0 == old(out)@,
            text_runs(out0).len() > 0,
            is_static == elements_static(all),
            is_static ==> {
                &&& group is None
                &&& non_text_items(out@) == non_text_items(out0)
                &&& text_runs(out@) == extend_last(text_runs(out0), elements_text(all.take(i as int)))
            },
            is_interp == elements_interp(all),
            forall|k: int| 0 <= k < i ==> #[trigger] branch_in_place(all, k),
            forall|k: int| 0 <= k < i ==> element_body_ok(#[trigger] all[k]),
            (group matches Some(g) && !g.closed && !g.is_for) == (open_group(all, i as int) == 1),
            (group matches Some(g) && !g.closed && g.is_for) == (open_group(all, i as int) == 2),
            is_interp ==> {
                &&& group is None
                &&& text_runs(out@) == join_runs(text_runs(out0), elements_runs(all.take(i as int)))
                &&& exprs_appended(
                    non_text_items(out@),
                    non_text_items(out0),
                    elements_exprs(all.take(i as int)),
                )
            },
    {
        let ghost cur = all[i as int];
        proof {
            lemma_bodies_ok(all);
            assert(prev_non_blank(all, i + 1) == if blank_text(all[i as int]) {
                prev_non_blank(all, i as int)
            } else {
                Some(i as int)
            });
            assert(decreases_to!(all => all[i as int]));
            if is_static {
                lemma_static_at(all, i as int);
            }
            assert(all.take(i + 1).subrange(0, i as int) =~= all.take(i as int));
            assert(all.take(i + 1)[i as int] == all[i as int]);
            lemma_extend_twice(
                text_runs(out0),
                elements_text(all.take(i as int)),
                element_text(all[i as int]),
            );
            if is_interp {
                lemma_interp_at(all, i as int);
                lemma_elements_runs_len(all.take(i as int));
                lemma_element_runs_len(all[i as int]);
                lemma_join_assoc(
                    text_runs(out0),
                    elements_runs(all.take(i as int)),
                    element_runs(all[i as int]),
                );
            }
        }
        let ghost out_before = out@;
        let ghost g0 = group;
        let ghost h0 = held@;
        let ghost st_next = heads_state(all.take(i + 1));
        let ghost rs = runs_state(all.take(i as int));
        let ghost rs_next = runs_state(all.take(i + 1));
        let ghost closed = flush_runs(rs.0, rs.1, rs.2);
        proof {
            lemma_runs_state_len(all.take(i as int));
            lemma_runs_nonempty(out0);
            lemma_element_runs_all_len(cur);
            assert(all.take(i + 1).drop_last() =~= all.take(i as int));
            assert(all.take(i + 1).last() == all[i as int]);
            assert(group_heads(g0) == pending_heads(pending_of(g0)));
        }
        match e {
            TemplateElement::Text(t) => {
                proof {
                    assert(cur == TemplateElement::Text(t));
                    assert(!continues_group(cur));
                }
                let ghost tc = t.content@;
                if group.is_some() && is_blank(&t.content) {
                    let ghost h_before = held@;
                    held.push(t.content);
                    proof {
                        assert(held@.drop_last() =~= h_before);
                        assert(rs_next == (rs.0, true, rs.2 + tc));
                    }
                } else {
                    flush(out, group, held);
                proof {
                    lemma_flush_runs(out_before, out@, g0, h0);
                    lemma_flush_step(text_runs(out0), rs.0, text_runs(out_before), text_runs(out@), rs.1, rs.2);
                    lemma_flush_heads(out_before, out@, g0, h0);
                    lemma_appended_trans(
                        nt0,
                        non_text_items(out_before),
                        non_text_items(out@),
                        done,
                        group_heads(g0),
                    );
                    done = done + group_heads(g0);
                }
                    group = None;
                    held = Vec::new();
                    let x = LangSpecArgument::UnsafeString(t.content);
                    proof {
                        lemma_push_text(out@, x);
                        lemma_push_text_runs(out@, x);
                        lemma_exprs_appended_none(non_text_items(out@));
                        lemma_join_assoc(text_runs(out0), closed, seq![tc]);
                        assert(rs_next == (join_runs(closed, seq![tc]), false, Seq::<char>::empty()));
                    }
                    out.push(x);
                }
                proof {
                    assert(done + Seq::<NodeHead>::empty() =~= done);
                    assert(element_heads(cur) == Seq::<NodeHead>::empty());
                    assert(st_next == (done, pending_of(group)));
                }
            },
            TemplateElement::Expr(x) => {
                flush(out, group, held);
                proof {
                    lemma_flush_runs(out_before, out@, g0, h0);
                    lemma_flush_step(text_runs(out0), rs.0, text_runs(out_before), text_runs(out@), rs.1, rs.2);
                    lemma_flush_heads(out_before, out@, g0, h0);
                    lemma_appended_trans(
                        nt0,
                        non_text_items(out_before),
                        non_text_items(out@),
                        done,
                        group_heads(g0),
                    );
                    done = done + group_heads(g0);
                }
                group = None;
                held = Vec::new();
                let ghost gx = x;
                let mut args: Vec<LangSpecArgument> = Vec::new();
                args.push(source_var());
                args.push(pos_tuple(x.token.start_index, x.token.end_index));
                args.push(LangSpecArgument::UnsafeString(x.expr.content));
                args.push(var_tuple(&x.used_vars));
                let a = node_struct(EXPR_NODE, args);
                proof {
                    assert(expr_struct_of(a, gx));
                    lemma_push_node_runs(out@, a);
                    let nt = non_text_items(out@);
                    assert(nt.push(a).subrange(0, nt.len() as int) =~= nt);
                    assert(nt.push(a)[nt.len() as int] == a);
                    assert(exprs_appended(nt.push(a), nt, seq![gx]));
                    let h = NodeHead::Expr { x: gx };
                    let o = out@;
                    lemma_appended_node(o, a, h);
                    lemma_appended_trans(nt0, non_text_items(o), non_text_items(o.push(a)), done, seq![h]);
                    done = done + seq![h];
                    assert(element_heads(cur) == seq![h]);
                    assert(st_next == (done, pending_of(None)));
                    let e = Seq::<char>::empty();
                    lemma_join_assoc(text_runs(out0), closed, seq![e, e]);
                    assert(rs_next == (join_runs(closed, seq![e, e]), false, e));
                }
                out.push(a);
            },
            TemplateElement::Node(n) => {
                proof {
                    assert(decreases_to!(all[i as int] => n));
                }
                let (kind, struct_name) = tag_kind(n.start_tag.name.content.as_str());
                if kind == TAG_ELIF || kind == TAG_ELSE || kind == TAG_EMPTY {
                    let wants_for = kind == TAG_EMPTY;
                    let fits = match &group {
                        Some(g) => g.is_for == wants_for && !g.closed,
                        None => false,
                    };
                    if !fits {
                        proof {
                            assert(cur == TemplateElement::Node(n));
                            assert(named(cur, "c-elif"@) == (kind == TAG_ELIF));
                            assert(named(cur, "c-else"@) == (kind == TAG_ELSE));
                            assert(named(cur, "c-empty"@) == (kind == TAG_EMPTY));
                            if wants_for {
                                assert(open_group(all, i as int) != 2);
                            } else {
                                assert(open_group(all, i as int) != 1);
                            }
                            lemma_in_place_open(all, i as int);
                            assert(!branch_in_place(all, i as int));
                        }
                        let err = if wants_for {
                            syntax_error("<c-empty> must directly follow <c-for>")
                        } else {
                            syntax_error("<c-elif>/<c-else> must directly follow <c-if> or <c-elif>")
                        };
                        proof {
                            lemma_error_found(all, i as int, wants_for);
                        }
                        return Err(err);
                    }
                    proof {
                        assert(cur == TemplateElement::Node(n));
                        assert(continues_group(cur));
                        assert(rs_next == (rs.0, rs.1, Seq::<char>::empty()));
                    }
                    let ghost gn = n;
                    let (_, end) = node_span(&n);
                    let (branch, used) = match make_branch(n) {
                        Ok(x) => x,
                        Err(e) => {
                            proof {
                                lemma_in_place_open(all, i as int);
                                lemma_error_in_body(all, i as int, gn);
                            }
                            return Err(e);
                        },
                    };
                    held = Vec::new();
                    match group {
                        Some(mut g) => {
                            let ghost ms = g.members@;
                            g.members = Ghost(g.members@.push(gn));
                            g.branches.push(branch);
                            add_vars(&mut g.used, &used);
                            proof {
                                assert(g.members@.drop_last() =~= ms);
                                assert(g.members@.last() == gn);
                            }
                            g.end = end;
                            g.closed = kind != TAG_ELIF;
                            group = Some(g);
                        },
                        None => {},
                    }
                } else if kind == TAG_IF || kind == TAG_FOR {
                    flush(out, group, held);
                proof {
                    lemma_flush_runs(out_before, out@, g0, h0);
                    lemma_flush_step(text_runs(out0), rs.0, text_runs(out_before), text_runs(out@), rs.1, rs.2);
                    lemma_flush_heads(out_before, out@, g0, h0);
                    lemma_appended_trans(
                        nt0,
                        non_text_items(out_before),
                        non_text_items(out@),
                        done,
                        group_heads(g0),
                    );
                    done = done + group_heads(g0);
                }
                    held = Vec::new();
                    proof {
                        assert(cur == TemplateElement::Node(n));
                    }
                    let ghost gn = n;
                    let (start, end) = node_span(&n);
                    let (branch, used) = match make_branch(n) {
                        Ok(x) => x,
                        Err(e) => {
                            proof {
                                lemma_in_place_open(all, i as int);
                                lemma_error_in_body(all, i as int, gn);
                            }
                            return Err(e);
                        },
                    };
                    let mut branches: Vec<LangSpecArgument> = Vec::new();
                    branches.push(branch);
                    group = Some(
                        Group {
                            is_for: kind == TAG_FOR,
                            closed: false,
                            start,
                            end,
                            branches,
                            used,
                            members: Ghost(Seq::empty().push(gn)),
                        },
                    );
                    proof {
                        assert(st_next == (done, pending_of(group)));
                        assert(rs_next == (closed, true, Seq::<char>::empty()));
                    }
                } else {
                    flush(out, group, held);
                proof {
                    lemma_flush_runs(out_before, out@, g0, h0);
                    lemma_flush_step(text_runs(out0), rs.0, text_runs(out_before), text_runs(out@), rs.1, rs.2);
                    lemma_flush_heads(out_before, out@, g0, h0);
                    lemma_appended_trans(
                        nt0,
                        non_text_items(out_before),
                        non_text_items(out@),
                        done,
                        group_heads(g0),
                    );
                    done = done + group_heads(g0);
                }
                    group = None;
                    held = Vec::new();
                    let ghost o = out@;
                    proof {
                        assert(cur == TemplateElement::Node(n));
                        assert(node_heads(n, kind, struct_name@) == element_heads(cur));
                    }
                    proof {
                        assert(node_runs(n, kind) == element_runs_all(cur));
                    }
                    let ghost gn = n;
                    match compile_node(n, kind, struct_name, out) {
                        Ok(()) => {},
                        Err(e) => {
                            proof {
                                lemma_in_place_open(all, i as int);
                                lemma_error_in_body(all, i as int, gn);
                            }
                            return Err(e);
                        },
                    }
                    proof {
                        lemma_join_assoc(text_runs(out0), closed, element_runs_all(cur));
                        assert(rs_next == (
                            join_runs(closed, element_runs_all(cur)),
                            false,
                            Seq::<char>::empty(),
                        ));
                        lemma_appended_trans(
                            nt0,
                            non_text_items(o),
                            non_text_items(out@),
                            done,
                            element_heads(cur),
                        );
                        done = done + element_heads(cur);
                        assert(st_next == (done, pending_of(group)));
                    }
                }
            },
        }
        proof {
            if is_interp {
                assert(all.take(i + 1).subrange(0, i as int) =~= all.take(i as int));
                assert(all.take(i + 1)[i as int] == all[i as int]);
                lemma_exprs_appended_trans(
                    non_text_items(out0),
                    non_text_items(out_before),
                    non_text_items(out@),
                    elements_exprs(all.take(i as int)),
                    element_exprs(all[i as int]),
                );
            }
        }
        i = i + 1;
    }
    proof {
        assert(all.take(i as int) =~= all);
        lemma_bodies_ok(all);
    }
    let ghost g0 = group;
    let ghost h0 = held@;
    let ghost o = out@;
    flush(out, group, held);
    proof {
        lemma_runs_state_len(all);
        lemma_runs_nonempty(out0);
        lemma_flush_runs(o, out@, g0, h0);
        lemma_flush_step(
            text_runs(out0),
            runs_state(all).0,
            text_runs(o),
            text_runs(out@),
            runs_state(all).1,
            runs_state(all).2,
        );
        lemma_flush_heads(o, out@, g0, h0);
        lemma_appended_trans(nt0, non_text_items(o), non_text_items(out@), done, group_heads(g0));
    }
    Ok(())
}

/// Compile the body of a template into a coalesced list of items.
fn compile_body(template: Template) -> (r: Result<Vec<LangSpecArgument>, CompileError>)
    ensures
        r matches Ok(items) ==> is_coalesced(items@) && unsafe_texts(items@),
        r matches Err(e) ==> error_of(e, template_error(template)),
        r is Ok <==> template_branches_ok(template),
        template_static(template) ==> (r matches Ok(items) && non_text_items(items@).len() == 0
            && text_runs(items@) == seq![template_text(template)]),
        template_interp(template) ==> (r matches Ok(items) && text_runs(items@) == template_runs(
            template,
        ) && expr_structs_of(non_text_items(items@), template_exprs(template))),
        r matches Ok(items) ==> fits_deep(non_text_items(items@), elements_heads(template.elements@)),
        r matches Ok(items) ==> text_runs(items@) == markup_runs(template),
    decreases template, 1nat,
{
    let ghost whole = template;
    let mut out: Vec<LangSpecArgument> = Vec::new();
    proof {
        assert(decreases_to!(whole => whole.elements));
        assert(decreases_to!(whole.elements => whole.elements@));
        assert(text_runs(out@) == seq![Seq::<char>::empty()]);
    }
    proof {
        lemma_elements_runs_len(whole.elements@);
        lemma_join_unit(template_runs(whole));
    }
    match compile_elements(template.elements, &mut out) {
        Ok(()) => {},
        Err(e) => {
            return Err(e);
        },
    }
    proof {
        lemma_body_runs_len(whole.elements@);
        lemma_join_unit(elements_runs_all(whole.elements@));
        assert(non_text_items(out@).skip(0) =~= non_text_items(out@));
        assert(seq![Seq::<char>::empty()].update(0, Seq::<char>::empty() + template_text(whole))
            =~= seq![template_text(whole)]);
        if template_interp(whole) {
            let xs = template_exprs(whole);
            let nt = non_text_items(out@);
            assert forall|k: int| 0 <= k < xs.len() implies expr_struct_of(#[trigger] nt[k], xs[k]) by {
                assert(nt[0 + k] == nt[k]);
            }
        }
    }
    Ok(coalesce(out))
}

/// Compile a parsed template into its intermediate form: a coalesced list
/// of text items (`UnsafeString`s) and node structs. It fails, with a syntax error, just when
/// a branch tag is misplaced somewhere outside `<c-raw>`: a `<c-elif>` or
/// `<c-else>` that does not follow (whitespace aside) a `<c-if>` or
/// `<c-elif>`, or a `<c-empty>` that does not follow a `<c-for>`. The error
/// is the one for the first such tag, reading the template in document
/// order and each body where its tag stands (`template_error`).
///
/// Markup with interpolations (text, `{{ expr }}` and plain HTML elements
/// with static attributes) always compiles: the runs of text between the
/// node structs are its text as written, split at its interpolations, and
/// the node structs are the interpolations' `ExprNode(source, (start, end),
/// expr, (var, ...))` structs, in document order. Static markup compiles to
/// a single string, its text as written.
///
/// For every template that compiles, the runs of text between the node
/// structs are `markup_runs`: the template's markup as written with the
/// dynamic parts cut out (an element with a dynamic attribute keeps `<name`
/// and `>`; a component, a built-in tag and a control-flow group leave
/// nothing, and blank text between the branch tags of a group is dropped;
/// `<c-raw>` keeps the text of its body).
/// The node structs of the result are those
/// `elements_heads` lists, in order: the `ExprNode` of each interpolation;
/// an `ElementAttrsNode` recording the start tag, the attribute structs and
/// the variables the attributes read, for each plain element with a dynamic
/// attribute; a `ComponentNode` (or the struct of a built-in tag) recording
/// the whole tag, its attribute structs, its compiled body and the variables
/// the tag reads; and one `IfNode`/`ForNode` per control-flow group, with one
/// branch per tag of the group, each recording where its tag stands, its
/// attribute structs, its compiled body and the variables it introduces, and
/// the variables the group reads (`group_used`). A body recorded in a struct
/// is compiled the same way: its runs of text and its node structs are those
/// of its own markup, at every depth of nesting.
pub fn compile_template_body(template: Template) -> (r: Result<Vec<LangSpecArgument>, CompileError>)
    ensures
        r matches Ok(items) ==> is_coalesced(items@) && unsafe_texts(items@),
        r matches Err(e) ==> error_of(e, template_error(template)),
        r is Ok <==> template_branches_ok(template),
        template_static(template) ==> (r matches Ok(items) && if template_text(template).len()
            == 0 {
            items@.len() == 0
        } else {
            items@.len() == 1 && is_text_arg(items@[0]) && arg_text(items@[0]) == template_text(
                template,
            )
        }),
        template_interp(template) ==> (r matches Ok(items) && text_runs(items@) == template_runs(
            template,
        ) && expr_structs_of(non_text_items(items@), template_exprs(template))),
        r matches Ok(items) ==> fits_deep(non_text_items(items@), elements_heads(template.elements@)),
        r matches Ok(items) ==> text_runs(items@) == markup_runs(template),
{
    let r = compile_body(template);
    proof {
        if r is Ok {
            let items = r->Ok_0@;
            if template_static(template) {
                lemma_coalesced_text_only(items);
                let t = template_text(template);
                assert(text_runs(items)[0] == seq![t][0]);
                if items.len() == 1 {
                    assert(seq![arg_text(items[0])][0] == arg_text(items[0]));
                    assert(is_text_arg(items[0]));
                    assert(arg_text(items[0]).len() > 0);
                }
            }
        }
    }
    r
}

} // verus!
