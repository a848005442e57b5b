//! Render plan: a walkable lowering of the compiler's intermediate form.
//!
//! A "render plan" is the compiled form an executor walks instead of the host
//! language's node tree. The compiler turns a template into an intermediate
//! form (`compile_template_body`); this module turns that same form into a
//! flat plan. Plan entry `i` describes body item `i`, so an executor can reach
//! the matching host node by position.
//!
//! Modelled here: static text, `{{ expr }}` interpolation, the attribute
//! region of plain elements with simple attributes, control flow
//! (`<c-if>`/`<c-for>`), and child components. Anything else becomes a
//! `Foreign` entry that the executor hands back to the host node.

use vstd::prelude::*;

use crate::ast::{template_text, ExprElement, Template, Token};
use crate::compiler::{
    arg_text, body_compiled, branch_of, compile_template_body, elements_heads, error_of,
    expr_struct_of, fits, fits_all, is_coalesced, lemma_coalesced_shape, markup_runs, names_of,
    non_text_items, same_shape, template_branches_ok, template_error, template_exprs,
    template_interp, template_runs, template_static, text_runs, NodeHead,
};
use crate::constants::{
    COMPONENT_NODE, ELEMENT_ATTRS_NODE, EXPR_NODE, FOR_NODE, IF_NODE, TEMPLATE_ATTR_NODE,
};
use crate::error::CompileError;
use crate::lang::lang::{LangSpecArgument, LangSpecStruct};
use crate::text::{owned, push_str, str_eq, str_to_chars, substring};

verus! {

/// One entry of a render plan body.
///
/// Entries are position-aligned with the body they were lowered from: `idx`
/// is the position of the matching item, which reaches the live host node
/// for the crossings the executor must make.
#[derive(Debug, PartialEq)]
pub enum PlanNode {
    /// Static literal text or HTML, appended verbatim.
    Text(String),
    /// A `{{ expr }}` interpolation: `expr` is its source text and
    /// `used_vars` the variables it reads.
    Expr { idx: usize, expr: String, used_vars: Vec<String> },
    /// The attribute region of a plain HTML element whose attributes are all
    /// simple (no `class`/`style` merge, no `c-bind` spread, no nested
    /// template value). `keys` are the output keys (`c-` prefix stripped) in
    /// source order, one per attribute.
    ElementAttrs { idx: usize, keys: Vec<String> },
    /// A `<c-if>`/`<c-elif>`/`<c-else>` conditional, one sub-plan per branch.
    If { idx: usize, branches: Vec<Vec<PlanNode>> },
    /// A `<c-for>` loop with its body and the optional `<c-empty>` body.
    For { idx: usize, loop_body: Vec<PlanNode>, empty_body: Option<Vec<PlanNode>> },
    /// A child-component tag.
    Component { idx: usize },
    /// Any node kind not modelled here; `node` names its kind.
    Foreign { idx: usize, node: String },
}

/// Whether `b` is a copy of `a`: the same variant with equal positions,
/// strings and keys, and copies of the nested plans.
pub open spec fn same_node(a: PlanNode, b: PlanNode) -> bool
    decreases a, 2nat,
{
    match a {
        PlanNode::Text(s) => b == PlanNode::Text(s),
        PlanNode::Expr { idx, expr, used_vars } => match b {
            PlanNode::Expr { idx: i, expr: x, used_vars: u } => i == idx && x == expr && u@
                == used_vars@,
            _ => false,
        },
        PlanNode::ElementAttrs { idx, keys } => match b {
            PlanNode::ElementAttrs { idx: i, keys: k } => i == idx && k@ == keys@,
            _ => false,
        },
        PlanNode::If { idx, branches } => match b {
            PlanNode::If { idx: i, branches: bs } => i == idx && same_plans(branches@, bs@),
            _ => false,
        },
        PlanNode::For { idx, loop_body, empty_body } => match b {
            PlanNode::For { idx: i, loop_body: lb, empty_body: eb } => {
                &&& i == idx
                &&& same_nodes(loop_body@, lb@)
                &&& match empty_body {
                    Some(e) => match eb {
                        Some(f) => same_nodes(e@, f@),
                        None => false,
                    },
                    None => eb is None,
                }
            },
            _ => false,
        },
        PlanNode::Component { idx } => b == PlanNode::Component { idx },
        PlanNode::Foreign { idx, node } => b == PlanNode::Foreign { idx, node },
    }
}

/// Whether `b` holds, position by position, copies of the entries of `a`.
pub open spec fn same_nodes(a: Seq<PlanNode>, b: Seq<PlanNode>) -> bool
    decreases a, 0nat,
{
    &&& a.len() == b.len()
    &&& a.len() > 0 ==> {
        &&& same_nodes(a.subrange(0, a.len() - 1), b.subrange(0, b.len() - 1))
        &&& same_node(a[a.len() - 1], b[b.len() - 1])
    }
}

/// Whether plan `b` is a copy of plan `a`.
pub open spec fn same_plan(a: Vec<PlanNode>, b: Vec<PlanNode>) -> bool
    decreases a, 1nat,
{
    same_nodes(a@, b@)
}

/// Whether `b` holds, position by position, copies of the plans of `a`.
pub open spec fn same_plans(a: Seq<Vec<PlanNode>>, b: Seq<Vec<PlanNode>>) -> bool
    decreases a, 0nat,
{
    &&& a.len() == b.len()
    &&& a.len() > 0 ==> {
        &&& same_plans(a.subrange(0, a.len() - 1), b.subrange(0, b.len() - 1))
        &&& same_plan(a[a.len() - 1], b[b.len() - 1])
    }
}

/// A copy of the strings of `v`.
fn clone_strings(v: &Vec<String>) -> (r: Vec<String>)
    ensures
        r@ == v@,
{
    let mut r: Vec<String> = Vec::new();
    let mut i: usize = 0;
    while i < v.len()
        invariant
            i <= v@.len(),
            r@ == v@.take(i as int),
        decreases v@.len() - i,
    {
        r.push(v[i].clone());
        proof {
            assert(r@ =~= v@.take(i + 1));
        }
        i = i + 1;
    }
    proof {
        assert(v@.take(v@.len() as int) =~= v@);
    }
    r
}

fn clone_node(n: &PlanNode) -> (r: PlanNode)
    ensures
        same_node(*n, r),
    decreases n,
{
    match n {
        PlanNode::Text(s) => PlanNode::Text(s.clone()),
        PlanNode::Expr { idx, expr, used_vars } => PlanNode::Expr {
            idx: *idx,
            expr: expr.clone(),
            used_vars: clone_strings(used_vars),
        },
        PlanNode::ElementAttrs { idx, keys } => PlanNode::ElementAttrs {
            idx: *idx,
            keys: clone_strings(keys),
        },
        PlanNode::If { idx, branches } => PlanNode::If {
            idx: *idx,
            branches: clone_plans(branches),
        },
        PlanNode::For { idx, loop_body, empty_body } => PlanNode::For {
            idx: *idx,
            loop_body: clone_nodes(loop_body),
            empty_body: match empty_body {
                Some(e) => Some(clone_nodes(e)),
                None => None,
            },
        },
        PlanNode::Component { idx } => PlanNode::Component { idx: *idx },
        PlanNode::Foreign { idx, node } => PlanNode::Foreign { idx: *idx, node: node.clone() },
    }
}

fn clone_nodes(v: &Vec<PlanNode>) -> (r: Vec<PlanNode>)
    ensures
        same_nodes(v@, r@),
    decreases v,
{
    let mut r: Vec<PlanNode> = Vec::new();
    let mut i: usize = 0;
    proof {
        assert(v@.take(0) =~= Seq::<PlanNode>::empty());
    }
    while i < v.len()
        invariant
            i <= v@.len(),
            r@.len() == i,
            same_nodes(v@.take(i as int), r@),
        decreases v@.len() - i,
    {
        assert(decreases_to!(v => v@));
        assert(decreases_to!(v@ => v@[i as int]));
        let x = clone_node(&v[i]);
        let ghost prev = r@;
        r.push(x);
        proof {
            let vt = v@.take(i + 1);
            assert(vt.subrange(0, i as int) =~= v@.take(i as int));
            assert(r@.subrange(0, i as int) =~= prev);
            assert(vt[i as int] == v@[i as int]);
        }
        i = i + 1;
    }
    proof {
        assert(v@.take(v@.len() as int) =~= v@);
    }
    r
}

fn clone_plans(v: &Vec<Vec<PlanNode>>) -> (r: Vec<Vec<PlanNode>>)
    ensures
        same_plans(v@, r@),
    decreases v,
{
    let mut r: Vec<Vec<PlanNode>> = Vec::new();
    let mut i: usize = 0;
    proof {
        assert(v@.take(0) =~= Seq::<Vec<PlanNode>>::empty());
    }
    while i < v.len()
        invariant
            i <= v@.len(),
            r@.len() == i,
            same_plans(v@.take(i as int), r@),
        decreases v@.len() - i,
    {
        assert(decreases_to!(v => v@));
        assert(decreases_to!(v@ => v@[i as int]));
        let x = clone_nodes(&v[i]);
        let ghost prev = r@;
        r.push(x);
        proof {
            let vt = v@.take(i + 1);
            assert(vt.subrange(0, i as int) =~= v@.take(i as int));
            assert(r@.subrange(0, i as int) =~= prev);
            assert(vt[i as int] == v@[i as int]);
            assert(same_plan(vt[i as int], r@[i as int]));
        }
        i = i + 1;
    }
    proof {
        assert(v@.take(v@.len() as int) =~= v@);
    }
    r
}

impl Clone for PlanNode {
    fn clone(&self) -> (r: Self)
        ensures
            same_node(*self, r),
    {
        clone_node(self)
    }
}

/// A compiled render plan: a flat body the executor walks.
#[derive(Debug, PartialEq)]
pub struct RenderPlan {
    pub body: Vec<PlanNode>,
}

impl Clone for RenderPlan {
    fn clone(&self) -> (r: Self)
        ensures
            same_nodes(self.body@, r.body@),
    {
        RenderPlan { body: clone_nodes(&self.body) }
    }
}

impl RenderPlan {
    /// Number of body entries (text + nodes).
    pub fn len(&self) -> (r: usize)
        ensures
            r == self.body@.len(),
    {
        self.body.len()
    }

    /// Whether the plan has no body entries.
    pub fn is_empty(&self) -> (r: bool)
        ensures
            r == (self.body@.len() == 0),
    {
        self.body.len() == 0
    }

    /// A coarse description of each body entry: `"text"`, `"expr"`, or
    /// `"foreign:<NodeName>"`, naming the node struct it stands for.
    pub fn kinds(&self) -> (r: Vec<String>)
        ensures
            r@.len() == self.body@.len(),
            forall|i: int| 0 <= i < r@.len() ==> (#[trigger] r@[i])@ == kind_name(self.body@[i]),
    {
        let mut out: Vec<String> = Vec::new();
        let mut i: usize = 0;
        while i < self.body.len()
            invariant
                i <= self.body@.len(),
                out@.len() == i,
                forall|j: int| 0 <= j < i ==> (#[trigger] out@[j])@ == kind_name(self.body@[j]),
            decreases self.body@.len() - i,
        {
            let k = match &self.body[i] {
                PlanNode::Text(_) => owned("text"),
                PlanNode::Expr { .. } => owned("expr"),
                PlanNode::ElementAttrs { .. } => foreign_kind(ELEMENT_ATTRS_NODE),
                PlanNode::If { .. } => foreign_kind(IF_NODE),
                PlanNode::For { .. } => foreign_kind(FOR_NODE),
                PlanNode::Component { .. } => foreign_kind(COMPONENT_NODE),
                PlanNode::Foreign { node, .. } => foreign_kind(node.as_str()),
            };
            out.push(k);
            i = i + 1;
        }
        out
    }
}

/// `foreign:<node>`.
fn foreign_kind(node: &str) -> (r: String)
    ensures
        r@ == "foreign:"@ + node@,
{
    let mut s = owned("foreign:");
    push_str(&mut s, node);
    s
}

/// The kind name of a plan entry: `text`, `expr`, or `foreign:<NodeName>`,
/// where a modelled node is named by the node struct it was lowered from.
pub open spec fn kind_name(n: PlanNode) -> Seq<char> {
    match n {
        PlanNode::Text(_) => "text"@,
        PlanNode::Expr { .. } => "expr"@,
        PlanNode::ElementAttrs { .. } => "foreign:"@ + ELEMENT_ATTRS_NODE@,
        PlanNode::If { .. } => "foreign:"@ + IF_NODE@,
        PlanNode::For { .. } => "foreign:"@ + FOR_NODE@,
        PlanNode::Component { .. } => "foreign:"@ + COMPONENT_NODE@,
        PlanNode::Foreign { node, .. } => "foreign:"@ + node@,
    }
}

// ---------------------------------------------------------------------------
// What lowering computes
// ---------------------------------------------------------------------------

/// Whether `a` is a static string item.
pub open spec fn is_text_arg(a: LangSpecArgument) -> bool {
    a is UnsafeString || a is SafeString
}

/// The output key of an attribute written as `raw`: without a `c-` prefix.
pub open spec fn out_key(raw: Seq<char>) -> Seq<char> {
    if raw.len() >= 2 && raw[0] == 'c' && raw[1] == '-' {
        raw.skip(2)
    } else {
        raw
    }
}

/// The output key of one attribute struct, or `None` when the attribute is
/// not simple: not a struct, a nested-template attribute, no key string, the
/// `c-bind` spread, or a `class`/`style` key.
pub open spec fn simple_attr_key(attr: LangSpecArgument) -> Option<Seq<char>> {
    match attr {
        LangSpecArgument::Struct(s) => {
            if s.name@ == TEMPLATE_ATTR_NODE@ {
                None
            } else if s.arguments@.len() > 2 && s.arguments@[2] is UnsafeString {
                let raw = s.arguments@[2]->UnsafeString_0@;
                if raw == seq!['c', '-', 'b', 'i', 'n', 'd'] {
                    None
                } else if out_key(raw) == seq!['c', 'l', 'a', 's', 's'] || out_key(raw) == seq![
                    's',
                    't',
                    'y',
                    'l',
                    'e',
                ] {
                    None
                } else {
                    Some(out_key(raw))
                }
            } else {
                None
            }
        },
        _ => None,
    }
}

/// The output keys of an attribute list, or `None` when one of them is not
/// simple.
pub open spec fn simple_attr_keys(attrs: Seq<LangSpecArgument>) -> Option<Seq<Seq<char>>>
    decreases attrs.len(),
{
    if attrs.len() == 0 {
        Some(Seq::empty())
    } else {
        match (simple_attr_keys(attrs.drop_last()), simple_attr_key(attrs.last())) {
            (Some(ks), Some(k)) => Some(ks.push(k)),
            _ => None,
        }
    }
}

/// The output keys of an `ElementAttrsNode` struct whose arguments are
/// `(source, (start, end), (attr...), (used_vars...))`.
pub open spec fn element_attrs_keys(args: Seq<LangSpecArgument>) -> Option<Seq<Seq<char>>> {
    if args.len() > 2 && args[2] is Tuple {
        simple_attr_keys(args[2]->Tuple_0@)
    } else {
        None
    }
}

/// The expression text of an `ExprNode` struct whose arguments are
/// `(source, (start, end), expr, (var...))`; empty when absent.
pub open spec fn expr_text(args: Seq<LangSpecArgument>) -> Seq<char> {
    if args.len() > 2 && args[2] is UnsafeString {
        args[2]->UnsafeString_0@
    } else {
        Seq::empty()
    }
}

/// The `SafeString` items of `items`, in order.
pub open spec fn safe_strings(items: Seq<LangSpecArgument>) -> Seq<Seq<char>>
    decreases items.len(),
{
    if items.len() == 0 {
        Seq::empty()
    } else {
        let rest = safe_strings(items.drop_last());
        match items.last() {
            LangSpecArgument::SafeString(v) => rest.push(v@),
            _ => rest,
        }
    }
}

/// The variable names of an `ExprNode` struct.
pub open spec fn expr_vars(args: Seq<LangSpecArgument>) -> Seq<Seq<char>> {
    if args.len() > 3 && args[3] is Tuple {
        safe_strings(args[3]->Tuple_0@)
    } else {
        Seq::empty()
    }
}

/// The views of a sequence of strings.
pub open spec fn string_views(v: Seq<String>) -> Seq<Seq<char>> {
    v.map_values(|s: String| s@)
}

/// The body items of one control-flow branch
/// `((start, end), (attrs...), [body...], (introduced...))`.
pub open spec fn branch_items(branch: LangSpecArgument) -> Option<Seq<LangSpecArgument>> {
    match branch {
        LangSpecArgument::Tuple(parts) => {
            if parts@.len() > 2 {
                match parts@[2] {
                    LangSpecArgument::List(items) => Some(items@),
                    _ => None,
                }
            } else {
                None
            }
        },
        _ => None,
    }
}

/// Whether every branch has a body list.
pub open spec fn all_branches_have_bodies(branches: Seq<LangSpecArgument>) -> bool {
    forall|k: int| 0 <= k < branches.len() ==> (#[trigger] branch_items(branches[k])) is Some
}

/// Whether `nodes` is the lowering of `items`, entry `i` standing for item `i`.
pub open spec fn lowered_body(items: Seq<LangSpecArgument>, nodes: Seq<PlanNode>) -> bool
    decreases items, 0nat,
{
    &&& items.len() == nodes.len()
    &&& items.len() > 0 ==> {
        &&& lowered_body(items.subrange(0, items.len() - 1), nodes.subrange(0, nodes.len() - 1))
        &&& lowered_item((items.len() - 1) as int, items[items.len() - 1], nodes[nodes.len() - 1])
    }
}

/// Whether `plan` is the lowering of the body of one control-flow branch.
pub open spec fn lowered_branch(branch: LangSpecArgument, plan: Seq<PlanNode>) -> bool
    decreases branch, 1nat,
{
    match branch {
        LangSpecArgument::Tuple(parts) => parts@.len() > 2 && match parts@[2] {
            LangSpecArgument::List(items) => lowered_body(items@, plan),
            _ => false,
        },
        _ => false,
    }
}

/// Whether `plans[k]` is the lowering of the body of branch `k`, for each branch.
pub open spec fn lowered_branches(branches: Seq<LangSpecArgument>, plans: Seq<Vec<PlanNode>>) -> bool
    decreases branches, 0nat,
{
    &&& branches.len() == plans.len()
    &&& branches.len() > 0 ==> {
        &&& lowered_branches(
            branches.subrange(0, branches.len() - 1),
            plans.subrange(0, plans.len() - 1),
        )
        &&& lowered_branch(branches[branches.len() - 1], plans[plans.len() - 1]@)
    }
}

/// Whether `node` is the foreign entry for a node kind named `name`.
pub open spec fn is_foreign(idx: int, name: String, node: PlanNode) -> bool {
    match node {
        PlanNode::Foreign { idx: i, node: n } => i == idx && n == name,
        _ => false,
    }
}

/// Whether `node` is the lowering of item `item` standing at position `idx`.
pub open spec fn lowered_item(idx: int, item: LangSpecArgument, node: PlanNode) -> bool
    decreases item, 1nat,
{
    match item {
        LangSpecArgument::UnsafeString(s) => node == PlanNode::Text(s),
        LangSpecArgument::SafeString(s) => node == PlanNode::Text(s),
        LangSpecArgument::Struct(st) => {
            let args = st.arguments@;
            if st.name@ == EXPR_NODE@ {
                match node {
                    PlanNode::Expr { idx: i, expr, used_vars } => {
                        &&& i == idx
                        &&& expr@ == expr_text(args)
                        &&& string_views(used_vars@) == expr_vars(args)
                    },
                    _ => false,
                }
            } else if st.name@ == ELEMENT_ATTRS_NODE@ {
                match element_attrs_keys(args) {
                    Some(ks) => match node {
                        PlanNode::ElementAttrs { idx: i, keys } => i == idx && string_views(keys@)
                            == ks,
                        _ => false,
                    },
                    None => is_foreign(idx, st.name, node),
                }
            } else if st.name@ == IF_NODE@ || st.name@ == FOR_NODE@ {
                lowered_flow(idx, st.name, args, st.name@ != IF_NODE@, node)
            } else if st.name@ == COMPONENT_NODE@ {
                node matches PlanNode::Component { idx: i } && i == idx
            } else {
                is_foreign(idx, st.name, node)
            }
        },
        _ => match node {
            PlanNode::Foreign { idx: i, node: n } => i == idx && n@ == "unknown"@,
            _ => false,
        },
    }
}

/// Whether `node` is the lowering, at position `idx`, of a control-flow
/// struct named `name` with arguments `args`: a `For` (when `is_for`) of its
/// first branch's body and, when there is one, of its second as the empty
/// body; else an `If` with one plan per branch. A struct of another shape
/// stays foreign.
pub open spec fn lowered_flow(
    idx: int,
    name: String,
    args: Seq<LangSpecArgument>,
    is_for: bool,
    node: PlanNode,
) -> bool
    decreases args, 2nat,
{
    if args.len() > 1 && args[1] is Tuple && all_branches_have_bodies(
        args[1]->Tuple_0@,
    ) {
        let branches = args[1]->Tuple_0@;
        if is_for {
            match node {
                PlanNode::For { idx: i, loop_body, empty_body } => {
                    &&& i == idx
                    &&& if branches.len() == 0 {
                        loop_body@.len() == 0 && empty_body is None
                    } else {
                        lowered_branch(branches[0], loop_body@) && if branches.len()
                            == 1 {
                            empty_body is None
                        } else {
                            match empty_body {
                                Some(e) => lowered_branch(branches[1], e@),
                                None => false,
                            }
                        }
                    }
                },
                _ => false,
            }
        } else {
            match node {
                PlanNode::If { idx: i, branches: plans } => i == idx
                    && lowered_branches(branches, plans@),
                _ => false,
            }
        }
    } else {
        is_foreign(idx, name, node)
    }
}

/// Whether no two text entries of `nodes` are adjacent: each run of static
/// content is a single entry.
pub open spec fn texts_merged(nodes: Seq<PlanNode>) -> bool {
    forall|i: int| 0 <= i < nodes.len() - 1 ==> !(#[trigger] nodes[i] is Text && nodes[i + 1] is Text)
}

/// The text of a plan entry (empty for any other entry).
pub open spec fn entry_text(n: PlanNode) -> Seq<char> {
    match n {
        PlanNode::Text(s) => s@,
        _ => Seq::empty(),
    }
}

/// The runs of text of a plan body, before, between and after its other
/// entries (one more run than other entries).
pub open spec fn plan_runs(nodes: Seq<PlanNode>) -> Seq<Seq<char>>
    decreases nodes.len(),
{
    if nodes.len() == 0 {
        seq![Seq::empty()]
    } else {
        let r = plan_runs(nodes.drop_last());
        if nodes.last() is Text {
            r.update(r.len() - 1, r.last() + entry_text(nodes.last()))
        } else {
            r.push(Seq::empty())
        }
    }
}

/// The entries of a plan body that are not text, in order.
pub open spec fn plan_non_text(nodes: Seq<PlanNode>) -> Seq<PlanNode>
    decreases nodes.len(),
{
    if nodes.len() == 0 {
        Seq::empty()
    } else if nodes.last() is Text {
        plan_non_text(nodes.drop_last())
    } else {
        plan_non_text(nodes.drop_last()).push(nodes.last())
    }
}

/// The position an entry that is not text names.
pub open spec fn node_idx(n: PlanNode) -> int {
    match n {
        PlanNode::Text(_) => 0,
        PlanNode::Expr { idx, .. } => idx as int,
        PlanNode::ElementAttrs { idx, .. } => idx as int,
        PlanNode::If { idx, .. } => idx as int,
        PlanNode::For { idx, .. } => idx as int,
        PlanNode::Component { idx } => idx as int,
        PlanNode::Foreign { idx, .. } => idx as int,
    }
}

/// Whether `node` is the plan entry of interpolation `x`: an `Expr` entry
/// with its expression and the names of the variables it reads.
pub open spec fn expr_entry_of(node: PlanNode, x: ExprElement) -> bool {
    node matches PlanNode::Expr { expr, used_vars, .. } && expr@ == x.expr.content@ && string_views(
        used_vars@,
    ) == x.used_vars@.map_values(|t: Token| t.content@)
}

/// Whether `nodes` are the plan entries of the interpolations `xs`, in order.
pub open spec fn expr_entries_of(nodes: Seq<PlanNode>, xs: Seq<ExprElement>) -> bool {
    &&& nodes.len() == xs.len()
    &&& forall|k: int| 0 <= k < xs.len() ==> expr_entry_of(#[trigger] nodes[k], xs[k])
}

/// The lowering of an item that is not text names the item's position.
proof fn lemma_lowered_idx(i: int, item: LangSpecArgument, node: PlanNode)
    requires
        lowered_item(i, item, node),
        !is_text_arg(item),
    ensures
        node_idx(node) == i,
        node !is Text,
{
}

/// The `SafeString` names of a tuple of names.
proof fn lemma_safe_strings_names(vs: Seq<LangSpecArgument>, vars: Seq<Token>)
    requires
        names_of(vs, vars),
    ensures
        safe_strings(vs) == vars.map_values(|t: Token| t.content@),
    decreases vs.len(),
{
    if vs.len() > 0 {
        let n = vs.len() - 1;
        assert(names_of(vs.drop_last(), vars.drop_last())) by {
            assert forall|k: int| 0 <= k < n implies (#[trigger] vs.drop_last()[k]) is SafeString
                && vs.drop_last()[k]->SafeString_0@ == vars.drop_last()[k].content@ by {
                assert(vs.drop_last()[k] == vs[k]);
            }
        }
        lemma_safe_strings_names(vs.drop_last(), vars.drop_last());
        assert(vs[n] is SafeString);
        assert(safe_strings(vs) =~= vars.map_values(|t: Token| t.content@));
    }
}

/// A lowered body has the runs of text of the items it was lowered from, and
/// its other entries are the lowerings of their other items, in order.
proof fn lemma_lowered_split(items: Seq<LangSpecArgument>, nodes: Seq<PlanNode>)
    requires
        lowered_body(items, nodes),
    ensures
        plan_runs(nodes) == text_runs(items),
        plan_non_text(nodes).len() == non_text_items(items).len(),
        forall|k: int|
            0 <= k < plan_non_text(nodes).len() ==> lowered_item(
                node_idx(#[trigger] plan_non_text(nodes)[k]),
                non_text_items(items)[k],
                plan_non_text(nodes)[k],
            ),
    decreases items.len(),
{
    if items.len() > 0 {
        let n = items.len() - 1;
        let pi = items.subrange(0, n);
        let pn = nodes.subrange(0, n);
        lemma_lowered_split(pi, pn);
        assert(items.drop_last() =~= pi);
        assert(nodes.drop_last() =~= pn);
        lemma_text_iff(n, items[n], nodes[n]);
        if !is_text_arg(items[n]) {
            lemma_lowered_idx(n, items[n], nodes[n]);
            let a = plan_non_text(nodes);
            let b = non_text_items(items);
            assert forall|k: int| 0 <= k < a.len() implies lowered_item(
                node_idx(#[trigger] a[k]),
                b[k],
                a[k],
            ) by {
                if k < a.len() - 1 {
                    assert(a[k] == plan_non_text(pn)[k]);
                    assert(b[k] == non_text_items(pi)[k]);
                }
            }
        }
    }
}

/// The plan entry of an `ExprNode` struct is the entry of its interpolation.
proof fn lemma_expr_entry(i: int, item: LangSpecArgument, node: PlanNode, x: ExprElement)
    requires
        lowered_item(i, item, node),
        expr_struct_of(item, x),
    ensures
        expr_entry_of(node, x),
{
    let args = item->Struct_0.arguments@;
    lemma_safe_strings_names(args[3]->Tuple_0@, x.used_vars@);
}

/// Entry `i` of a lowered body is the lowering of item `i`.
pub proof fn lemma_lowered_at(items: Seq<LangSpecArgument>, nodes: Seq<PlanNode>, i: int)
    requires
        lowered_body(items, nodes),
        0 <= i < items.len(),
    ensures
        lowered_item(i, items[i], nodes[i]),
        nodes[i] is Text <==> is_text_arg(items[i]),
    decreases items.len(),
{
    let n = items.len() - 1;
    if i < n {
        lemma_lowered_at(items.subrange(0, n), nodes.subrange(0, n), i);
    }
    lemma_text_iff(i, items[i], nodes[i]);
}

proof fn lemma_text_iff(i: int, item: LangSpecArgument, node: PlanNode)
    requires
        lowered_item(i, item, node),
    ensures
        node is Text <==> is_text_arg(item),
{
}

// ---------------------------------------------------------------------------
// Position alignment
// ---------------------------------------------------------------------------

/// Whether entry `node`, standing at position `i` of its body, names position
/// `i`, and so do the entries of its sub-plans in theirs.
pub open spec fn aligned_entry(i: int, node: PlanNode) -> bool
    decreases node, 1nat,
{
    match node {
        PlanNode::Text(_) => true,
        PlanNode::Expr { idx, .. } => idx == i,
        PlanNode::ElementAttrs { idx, .. } => idx == i,
        PlanNode::If { idx, branches } => idx == i && aligned_plans(branches@),
        PlanNode::For { idx, loop_body, empty_body } => {
            &&& idx == i
            &&& aligned_body(loop_body@)
            &&& match empty_body {
                Some(e) => aligned_body(e@),
                None => true,
            }
        },
        PlanNode::Component { idx } => idx == i,
        PlanNode::Foreign { idx, .. } => idx == i,
    }
}

/// Whether every entry of `nodes` names its own position (recursively).
pub open spec fn aligned_body(nodes: Seq<PlanNode>) -> bool
    decreases nodes, 0nat,
{
    nodes.len() > 0 ==> {
        &&& aligned_body(nodes.subrange(0, nodes.len() - 1))
        &&& aligned_entry((nodes.len() - 1) as int, nodes[nodes.len() - 1])
    }
}

/// Whether every sub-plan of `plans` is aligned.
pub open spec fn aligned_plans(plans: Seq<Vec<PlanNode>>) -> bool
    decreases plans, 0nat,
{
    plans.len() > 0 ==> {
        &&& aligned_plans(plans.subrange(0, plans.len() - 1))
        &&& aligned_body(plans[plans.len() - 1]@)
    }
}

/// Lowering lines the plan up with its body: entry `i` names position `i`,
/// in the root body and in every branch and loop body.
pub proof fn lemma_lowered_aligned(items: Seq<LangSpecArgument>, nodes: Seq<PlanNode>)
    requires
        lowered_body(items, nodes),
    ensures
        aligned_body(nodes),
    decreases items, 0nat,
{
    if items.len() > 0 {
        let n = items.len() - 1;
        lemma_lowered_aligned(items.subrange(0, n), nodes.subrange(0, n));
        lemma_item_aligned(n, items[n], nodes[n]);
    }
}

proof fn lemma_item_aligned(idx: int, item: LangSpecArgument, node: PlanNode)
    requires
        lowered_item(idx, item, node),
    ensures
        aligned_entry(idx, node),
    decreases item, 1nat,
{
    if let LangSpecArgument::Struct(st) = item {
        let args = st.arguments@;
        if st.name@ != EXPR_NODE@ && st.name@ != ELEMENT_ATTRS_NODE@ && (st.name@ == IF_NODE@
            || st.name@ == FOR_NODE@) {
            if args.len() > 1 && args[1] is Tuple && all_branches_have_bodies(args[1]->Tuple_0@) {
                let branches = args[1]->Tuple_0@;
                assert(decreases_to!(item => st));
                assert(decreases_to!(st.arguments => args));
                assert(decreases_to!(args => args[1]));
                assert(decreases_to!(args[1] => args[1]->Tuple_0));
                assert(decreases_to!(args[1]->Tuple_0 => branches));
                match node {
                    PlanNode::If { branches: plans, .. } => {
                        lemma_branches_aligned(branches, plans@);
                    },
                    PlanNode::For { loop_body, empty_body, .. } => {
                        if branches.len() > 0 {
                            assert(decreases_to!(branches => branches[0]));
                            lemma_branch_aligned(branches[0], loop_body@);
                            if branches.len() > 1 {
                                assert(decreases_to!(branches => branches[1]));
                                lemma_branch_aligned(branches[1], empty_body->Some_0@);
                            }
                        }
                    },
                    _ => {},
                }
            }
        }
    }
}

proof fn lemma_branch_aligned(branch: LangSpecArgument, plan: Seq<PlanNode>)
    requires
        lowered_branch(branch, plan),
    ensures
        aligned_body(plan),
    decreases branch, 1nat,
{
    if let LangSpecArgument::Tuple(parts) = branch {
        if let LangSpecArgument::List(items) = parts@[2] {
            assert(decreases_to!(branch => parts));
            assert(decreases_to!(parts => parts@));
            assert(decreases_to!(parts@ => parts@[2]));
            assert(decreases_to!(parts@[2] => items));
            assert(decreases_to!(items => items@));
            lemma_lowered_aligned(items@, plan);
        }
    }
}

proof fn lemma_branches_aligned(branches: Seq<LangSpecArgument>, plans: Seq<Vec<PlanNode>>)
    requires
        lowered_branches(branches, plans),
    ensures
        aligned_plans(plans),
    decreases branches, 0nat,
{
    if branches.len() > 0 {
        let n = branches.len() - 1;
        lemma_branches_aligned(branches.subrange(0, n), plans.subrange(0, n));
        lemma_branch_aligned(branches[n], plans[n]@);
    }
}

// ---------------------------------------------------------------------------
// Lowering
// ---------------------------------------------------------------------------

/// Whether plan body `nodes` lines up with body `items` by position: as many
/// entries as items, a text entry just where an item is a string, holding
/// its text.
pub open spec fn texts_line_up(items: Seq<LangSpecArgument>, nodes: Seq<PlanNode>) -> bool {
    &&& items.len() == nodes.len()
    &&& forall|i: int|
        0 <= i < items.len() ==> (is_text_arg(#[trigger] items[i]) <==> nodes[i] is Text) && (
        is_text_arg(items[i]) ==> entry_text(nodes[i]) == arg_text(items[i]))
}

/// The branches a node struct records as its second argument, when that is
/// a tuple.
pub open spec fn branches_of(x: LangSpecArgument) -> Option<Seq<LangSpecArgument>> {
    match x {
        LangSpecArgument::Struct(st) => if st.arguments@.len() > 1 {
            match st.arguments@[1] {
                LangSpecArgument::Tuple(bs) => Some(bs@),
                _ => None,
            }
        } else {
            None
        },
        _ => None,
    }
}

/// Whether plan body `nodes` lines up with body `items` by position, and
/// so, `d` levels of sub-plans deep, does each sub-plan of an `If` or `For`
/// entry with the body of the branch it stands for.
pub open spec fn deep_line_up(items: Seq<LangSpecArgument>, nodes: Seq<PlanNode>, d: nat) -> bool
    decreases d, 0nat,
{
    &&& texts_line_up(items, nodes)
    &&& d > 0 ==> forall|i: int|
        0 <= i < nodes.len() ==> sub_line_up(#[trigger] items[i], nodes[i], (d - 1) as nat)
}

/// Whether the sub-plans of entry `node` line up with the bodies of the
/// branches that `item` records (`d` levels deep): branch for branch for an
/// `If`; the first branch for the loop body of a `For` and the second for
/// its empty body.
pub open spec fn sub_line_up(item: LangSpecArgument, node: PlanNode, d: nat) -> bool
    decreases d, 1nat,
{
    match node {
        PlanNode::If { branches: plans, .. } => match branches_of(item) {
            Some(bs) => bs.len() == plans@.len() && forall|k: int|
                0 <= k < bs.len() ==> (branch_items(#[trigger] bs[k]) matches Some(v)
                    && deep_line_up(v, plans@[k]@, d)),
            None => false,
        },
        PlanNode::For { loop_body, empty_body, .. } => match branches_of(item) {
            Some(bs) => {
                &&& bs.len() >= 1 ==> (branch_items(bs[0]) matches Some(v) && deep_line_up(
                    v,
                    loop_body@,
                    d,
                ))
                &&& bs.len() == 0 ==> loop_body@.len() == 0
                &&& empty_body matches Some(e) ==> bs.len() >= 2 && (branch_items(bs[1]) matches Some(
                    w,
                ) && deep_line_up(w, e@, d))
            },
            None => false,
        },
        _ => true,
    }
}

/// Whether the bodies of `a` have, item for item, the same shape as those of
/// `b`, `d` levels of branch bodies deep.
pub open spec fn deep_shape(a: Seq<LangSpecArgument>, b: Seq<LangSpecArgument>, d: nat) -> bool
    decreases d, 0nat,
{
    &&& same_shape(a, b)
    &&& d > 0 ==> forall|i: int|
        0 <= i < a.len() ==> same_branches(#[trigger] a[i], b[i], (d - 1) as nat)
}

/// Whether each branch body that `y` records has a counterpart in `x` of the
/// same shape (`d` levels deep).
pub open spec fn same_branches(x: LangSpecArgument, y: LangSpecArgument, d: nat) -> bool
    decreases d, 1nat,
{
    branches_of(y) matches Some(by) ==> (branches_of(x) matches Some(bx) && bx.len() == by.len()
        && forall|k: int|
        0 <= k < by.len() ==> (branch_items(#[trigger] by[k]) matches Some(v) ==> (branch_items(
            bx[k],
        ) matches Some(u) && deep_shape(u, v, d))))
}

/// Branch `k` of lowered branches is lowered.
proof fn lemma_branches_at(branches: Seq<LangSpecArgument>, plans: Seq<Vec<PlanNode>>, k: int)
    requires
        lowered_branches(branches, plans),
        0 <= k < branches.len(),
    ensures
        lowered_branch(branches[k], plans[k]@),
    decreases branches.len(),
{
    let n = branches.len() - 1;
    if k < n {
        lemma_branches_at(branches.subrange(0, n), plans.subrange(0, n), k);
    }
}

/// The body of a lowered branch is lowered to the branch's plan.
proof fn lemma_branch_items(branch: LangSpecArgument, plan: Seq<PlanNode>)
    requires
        lowered_branch(branch, plan),
    ensures
        branch_items(branch) matches Some(v) && lowered_body(v, plan),
{
}

/// A lowered body lines up with its plan at every depth.
pub proof fn lemma_lowered_deep(items: Seq<LangSpecArgument>, nodes: Seq<PlanNode>, d: nat)
    requires
        lowered_body(items, nodes),
    ensures
        deep_line_up(items, nodes, d),
    decreases d,
{
    assert forall|i: int| 0 <= i < items.len() implies (is_text_arg(#[trigger] items[i]) <==> nodes[i] is Text)
        && (is_text_arg(items[i]) ==> entry_text(nodes[i]) == arg_text(items[i])) by {
        lemma_lowered_at(items, nodes, i);
    }
    if d > 0 {
        assert forall|i: int| 0 <= i < nodes.len() implies sub_line_up(
            #[trigger] items[i],
            nodes[i],
            (d - 1) as nat,
        ) by {
            lemma_lowered_at(items, nodes, i);
            let item = items[i];
            match nodes[i] {
                PlanNode::If { idx, branches: plans } => {
                    let bs = branches_of(item)->Some_0;
                    assert forall|k: int| 0 <= k < bs.len() implies (branch_items(#[trigger] bs[k]) matches Some(v)
                        && deep_line_up(v, plans@[k]@, (d - 1) as nat)) by {
                        lemma_branches_at(bs, plans@, k);
                        lemma_branch_items(bs[k], plans@[k]@);
                        lemma_lowered_deep(branch_items(bs[k])->Some_0, plans@[k]@, (d - 1) as nat);
                    }
                },
                PlanNode::For { idx, loop_body, empty_body } => {
                    let bs = branches_of(item)->Some_0;
                    if bs.len() >= 1 {
                        lemma_branch_items(bs[0], loop_body@);
                        lemma_lowered_deep(branch_items(bs[0])->Some_0, loop_body@, (d - 1) as nat);
                    }
                    if let Some(e) = empty_body {
                        lemma_branch_items(bs[1], e@);
                        lemma_lowered_deep(branch_items(bs[1])->Some_0, e@, (d - 1) as nat);
                    }
                },
                _ => {},
            }
        }
    }
}

/// A body of the same shape as one that lines up with a plan lines up with
/// it too.
pub proof fn lemma_shape_line_up(
    a: Seq<LangSpecArgument>,
    b: Seq<LangSpecArgument>,
    nodes: Seq<PlanNode>,
    d: nat,
)
    requires
        deep_shape(a, b, d),
        deep_line_up(b, nodes, d),
    ensures
        deep_line_up(a, nodes, d),
    decreases d,
{
    assert forall|i: int| 0 <= i < a.len() implies (is_text_arg(#[trigger] a[i]) <==> nodes[i] is Text)
        && (is_text_arg(a[i]) ==> entry_text(nodes[i]) == arg_text(a[i])) by {
        assert(is_text_arg(b[i]) <==> nodes[i] is Text);
    }
    if d > 0 {
        assert forall|i: int| 0 <= i < nodes.len() implies sub_line_up(
            #[trigger] a[i],
            nodes[i],
            (d - 1) as nat,
        ) by {
            assert(sub_line_up(b[i], nodes[i], (d - 1) as nat));
            assert(same_branches(a[i], b[i], (d - 1) as nat));
            match nodes[i] {
                PlanNode::If { idx, branches: plans } => {
                    let by = branches_of(b[i])->Some_0;
                    let bx = branches_of(a[i])->Some_0;
                    assert forall|k: int| 0 <= k < bx.len() implies (branch_items(#[trigger] bx[k]) matches Some(u)
                        && deep_line_up(u, plans@[k]@, (d - 1) as nat)) by {
                        assert(branch_items(by[k]) is Some);
                        let v = branch_items(by[k])->Some_0;
                        let u = branch_items(bx[k])->Some_0;
                        lemma_shape_line_up(u, v, plans@[k]@, (d - 1) as nat);
                    }
                },
                PlanNode::For { idx, loop_body, empty_body } => {
                    let by = branches_of(b[i])->Some_0;
                    let bx = branches_of(a[i])->Some_0;
                    if by.len() >= 1 {
                        assert(branch_items(by[0]) is Some);
                        lemma_shape_line_up(
                            branch_items(bx[0])->Some_0,
                            branch_items(by[0])->Some_0,
                            loop_body@,
                            (d - 1) as nat,
                        );
                    }
                    if let Some(e) = empty_body {
                        assert(branch_items(by[1]) is Some);
                        lemma_shape_line_up(
                            branch_items(bx[1])->Some_0,
                            branch_items(by[1])->Some_0,
                            e@,
                            (d - 1) as nat,
                        );
                    }
                },
                _ => {},
            }
        }
    }
}

/// The non-text items of a prefix of a body are a prefix of its non-text
/// items.
proof fn lemma_nt_prefix(a: Seq<LangSpecArgument>, j: int)
    requires
        0 <= j <= a.len(),
    ensures
        non_text_items(a.subrange(0, j)).len() <= non_text_items(a).len(),
        forall|m: int|
            0 <= m < non_text_items(a.subrange(0, j)).len() ==> #[trigger] non_text_items(
                a.subrange(0, j),
            )[m] == non_text_items(a)[m],
    decreases a.len() - j,
{
    if j < a.len() {
        lemma_nt_prefix(a, j + 1);
        let s1 = a.subrange(0, j + 1);
        assert(s1.drop_last() =~= a.subrange(0, j));
        assert(s1.last() == a[j]);
        let p = non_text_items(a.subrange(0, j));
        assert forall|m: int| 0 <= m < p.len() implies #[trigger] p[m] == non_text_items(a)[m] by {
            assert(p[m] == non_text_items(s1)[m]);
        }
    } else {
        assert(a.subrange(0, j) =~= a);
    }
}

/// A non-text item stands among the non-text items at the count of those
/// before it.
proof fn lemma_nt_at(a: Seq<LangSpecArgument>, i: int)
    requires
        0 <= i < a.len(),
        !is_text_arg(a[i]),
    ensures
        non_text_items(a.subrange(0, i)).len() < non_text_items(a).len(),
        non_text_items(a)[non_text_items(a.subrange(0, i)).len() as int] == a[i],
{
    let s1 = a.subrange(0, i + 1);
    assert(s1.drop_last() =~= a.subrange(0, i));
    assert(s1.last() == a[i]);
    lemma_nt_prefix(a, i + 1);
    assert(non_text_items(s1)[non_text_items(a.subrange(0, i)).len() as int] == a[i]);
}

/// Bodies of the same shape have as many non-text items before each place.
proof fn lemma_nt_count(a: Seq<LangSpecArgument>, b: Seq<LangSpecArgument>, i: int)
    requires
        same_shape(a, b),
        0 <= i <= a.len(),
    ensures
        non_text_items(a.subrange(0, i)).len() == non_text_items(b.subrange(0, i)).len(),
    decreases i,
{
    if i > 0 {
        lemma_nt_count(a, b, i - 1);
        assert(a.subrange(0, i).drop_last() =~= a.subrange(0, i - 1));
        assert(b.subrange(0, i).drop_last() =~= b.subrange(0, i - 1));
        assert(a.subrange(0, i).last() == a[i - 1]);
        assert(b.subrange(0, i).last() == b[i - 1]);
    }
}

/// Two node structs that a head expects record branch bodies of the same
/// shape (`d` levels deep).
proof fn lemma_fits_same_branches(x: LangSpecArgument, y: LangSpecArgument, h: NodeHead, d: nat)
    requires
        fits(x, h, d),
        fits(y, h, d),
        d > 0,
    ensures
        same_branches(x, y, (d - 1) as nat),
    decreases d, 0nat,
{
    match h {
        NodeHead::Group { is_for, members } => {
            let by = branches_of(y)->Some_0;
            let bx = branches_of(x)->Some_0;
            assert forall|k: int| 0 <= k < by.len() implies (branch_items(#[trigger] by[k]) matches Some(v)
                ==> (branch_items(bx[k]) matches Some(u) && deep_shape(u, v, (d - 1) as nat))) by {
                assert(branch_of(members[k], by[k], d));
                assert(branch_of(members[k], bx[k], d));
                let v = branch_items(by[k])->Some_0;
                let u = branch_items(bx[k])->Some_0;
                assert(body_compiled(members[k].body, u, d));
                assert(body_compiled(members[k].body, v, d));
                match members[k].body {
                    Some(t) => {
                        lemma_fits_shape(u, v, elements_heads(t.elements@), (d - 1) as nat);
                    },
                    None => {
                        assert(same_shape(u, v));
                    },
                }
            }
        },
        _ => {},
    }
}

/// Two coalesced bodies with the same runs of text whose node structs are
/// those the same heads expect have the same shape, `d` levels of branch
/// bodies deep.
proof fn lemma_fits_shape(a: Seq<LangSpecArgument>, b: Seq<LangSpecArgument>, hs: Seq<NodeHead>, d: nat)
    requires
        is_coalesced(a),
        is_coalesced(b),
        text_runs(a) == text_runs(b),
        fits_all(non_text_items(a), hs, d),
        fits_all(non_text_items(b), hs, d),
    ensures
        deep_shape(a, b, d),
    decreases d, 1nat,
{
    lemma_coalesced_shape(a, b);
    if d > 0 {
        assert forall|i: int| 0 <= i < a.len() implies same_branches(
            #[trigger] a[i],
            b[i],
            (d - 1) as nat,
        ) by {
            if !is_text_arg(a[i]) {
                lemma_nt_at(a, i);
                lemma_nt_at(b, i);
                lemma_nt_count(a, b, i);
                let c = non_text_items(a.subrange(0, i)).len() as int;
                assert(fits(non_text_items(a)[c], hs[c], d));
                assert(fits(non_text_items(b)[c], hs[c], d));
                lemma_fits_same_branches(a[i], b[i], hs[c], d);
            }
        }
    }
}

/// Lower a parsed template into a render plan.
///
/// Reuses the same `compile_template_body` output the string code generation
/// consumes, so control-flow grouping, string coalescing, and used-variable
/// de-duplication are already resolved: the plan is the lowering
/// (`lowered_body`) of what `compile_template_body` returns for the template,
/// and an error is the one it returns. Whatever list of items compiling may
/// return, the plan lines up with it by position (`deep_line_up`): one entry
/// per item, a text entry holding the same text just where an item is a
/// string, and likewise each sub-plan of an `If` or `For` entry with the body
/// of the branch it stands for, at every depth. An error is the one for the
/// first misplaced branch tag (`template_error`), as compiling reports it.
/// Its text entries are the template's markup with the dynamic parts cut
/// out. Every entry that is not text names
/// its own position, in the root body and in every branch and loop body, and
/// no two text entries are adjacent. It fails just where compiling fails: on
/// a misplaced branch tag.
/// Static markup becomes a single text entry holding it as written; markup
/// with interpolations becomes its runs of text, as written, between the
/// `Expr` entries of its interpolations, in document order.
pub fn serialize_render_plan(template: Template) -> (r: Result<RenderPlan, CompileError>)
    ensures
        r matches Ok(plan) ==> exists|ir: Vec<LangSpecArgument>|
            call_ensures(compile_template_body, (template,), Ok(ir)) && #[trigger] lowered_body(
                ir@,
                plan.body@,
            ),
        r matches Err(e) ==> call_ensures(compile_template_body, (template,), Err(e)),
        r matches Err(e) ==> error_of(e, template_error(template)),
        r matches Ok(plan) ==> forall|ir: Vec<LangSpecArgument>, d: nat|
            #![trigger deep_line_up(ir@, plan.body@, d)]
            call_ensures(compile_template_body, (template,), Ok(ir)) ==> deep_line_up(
                ir@,
                plan.body@,
                d,
            ),
        r matches Ok(plan) ==> aligned_body(plan.body@) && texts_merged(plan.body@),
        r matches Ok(plan) ==> plan_runs(plan.body@) == markup_runs(template),
        r matches Err(e) ==> e is Syntax,
        r is Ok <==> template_branches_ok(template),
        template_static(template) ==> (r matches Ok(plan) && if template_text(template).len()
            == 0 {
            plan.body@.len() == 0
        } else {
            plan.body@.len() == 1 && (plan.body@[0] matches PlanNode::Text(t) && t@
                == template_text(template))
        }),
        template_interp(template) ==> (r matches Ok(plan) && plan_runs(plan.body@)
            == template_runs(template) && expr_entries_of(
            plan_non_text(plan.body@),
            template_exprs(template),
        )),
{
    let ghost whole = template;
    let compiled = compile_template_body(template);
    proof {
        assert(call_ensures(compile_template_body, (whole,), compiled));
    }
    let body_items = match compiled {
        Ok(items) => items,
        Err(e) => {
            return Err(e);
        },
    };
    let ghost ir = body_items@;
    let ghost ir_vec = body_items;
    let body = lower_body(body_items);
    proof {
        lemma_lowered_aligned(ir, body@);
        assert forall|i: int| 0 <= i < body@.len() implies (#[trigger] body@[i] is Text)
            == is_text_arg(ir[i]) by {
            lemma_lowered_at(ir, body@, i);
        }
        assert forall|i: int| 0 <= i < body@.len() - 1 implies !(#[trigger] body@[i] is Text
            && body@[i + 1] is Text) by {
            assert(body@[i] is Text == is_text_arg(ir[i]));
            assert(body@[i + 1] is Text == is_text_arg(ir[i + 1]));
        }
        if template_static(whole) && ir.len() == 1 {
            lemma_lowered_at(ir, body@, 0);
        }
        if template_interp(whole) {
            lemma_lowered_split(ir, body@);
            let xs = template_exprs(whole);
            let pn = plan_non_text(body@);
            assert forall|k: int| 0 <= k < xs.len() implies expr_entry_of(#[trigger] pn[k], xs[k]) by {
                lemma_expr_entry(node_idx(pn[k]), non_text_items(ir)[k], pn[k], xs[k]);
            }
        }
    }
    proof {
        assert(lowered_body(ir_vec@, body@));
        lemma_lowered_split(ir, body@);
        let hs = elements_heads(whole.elements@);
        assert forall|other: Vec<LangSpecArgument>, d: nat|
            #![trigger deep_line_up(other@, body@, d)]
            call_ensures(compile_template_body, (whole,), Ok(other)) implies deep_line_up(
            other@,
            body@,
            d,
        ) by {
            assert(fits_all(non_text_items(other@), hs, d));
            assert(fits_all(non_text_items(ir), hs, d));
            lemma_fits_shape(other@, ir, hs, d);
            lemma_lowered_deep(ir, body@, d);
            lemma_shape_line_up(other@, ir, body@, d);
        }
    }
    Ok(RenderPlan { body })
}

/// Lower a coalesced body (a list of strings and node structs) into a list of
/// plan entries. Each entry's `idx` is its position in this body.
pub fn lower_body(items: Vec<LangSpecArgument>) -> (r: Vec<PlanNode>)
    ensures
        lowered_body(items@, r@),
    decreases items@, 2nat,
{
    let ghost all = items@;
    let n = items.len();
    let mut out: Vec<PlanNode> = Vec::new();
    let mut idx: usize = 0;
    for item in it: items
        invariant
            all == it.seq(),
            all.len() == n,
            idx == it.index(),
            out@.len() == idx,
            lowered_body(all.take(idx as int), out@),
    {
        proof {
            assert(decreases_to!(all => all[idx as int]));
        }
        let node = lower_item(idx, item);
        let ghost prev = out@;
        out.push(node);
        proof {
            assert(all.take(idx + 1).subrange(0, idx as int) =~= all.take(idx as int));
            assert(out@.subrange(0, idx as int) =~= prev);
        }
        idx = idx + 1;
    }
    proof {
        assert(all.take(idx as int) =~= all);
    }
    out
}

/// Lower one item into a plan entry, keeping its body-list position in `idx`.
pub fn lower_item(idx: usize, item: LangSpecArgument) -> (r: PlanNode)
    ensures
        lowered_item(idx as int, item, r),
    decreases item, 1nat,
{
    match item {
        LangSpecArgument::UnsafeString(s) => PlanNode::Text(s),
        LangSpecArgument::SafeString(s) => PlanNode::Text(s),
        LangSpecArgument::Struct(s) => lower_struct(idx, s),
        _ => PlanNode::Foreign { idx, node: owned("unknown") },
    }
}

/// Dispatch a node struct to the matching plan entry. Unmodelled kinds (and
/// modelled kinds that hit an unsupported shape) become `Foreign`.
pub fn lower_struct(idx: usize, s: LangSpecStruct) -> (r: PlanNode)
    ensures
        lowered_item(idx as int, LangSpecArgument::Struct(s), r),
    decreases s, 1nat,
{
    let ghost whole = s;
    let LangSpecStruct { name, arguments } = s;
    if str_eq(name.as_str(), EXPR_NODE) {
        let (expr, used_vars) = extract_expr_node(arguments.as_slice());
        PlanNode::Expr { idx, expr, used_vars }
    } else if str_eq(name.as_str(), ELEMENT_ATTRS_NODE) {
        match lower_element_attrs_keys(arguments.as_slice()) {
            Some(keys) => PlanNode::ElementAttrs { idx, keys },
            None => PlanNode::Foreign { idx, node: name },
        }
    } else if str_eq(name.as_str(), IF_NODE) {
        proof {
            assert(decreases_to!(whole => arguments));
            assert(decreases_to!(arguments => arguments@));
        }
        lower_control_flow(idx, name, arguments, false)
    } else if str_eq(name.as_str(), FOR_NODE) {
        proof {
            assert(decreases_to!(whole => arguments));
            assert(decreases_to!(arguments => arguments@));
        }
        lower_control_flow(idx, name, arguments, true)
    } else if str_eq(name.as_str(), COMPONENT_NODE) {
        PlanNode::Component { idx }
    } else {
        PlanNode::Foreign { idx, node: name }
    }
}

/// Lower an `IfNode`/`ForNode` struct by recursively lowering each branch body.
/// Argument order is `(source, (branch...), (used_vars...))`, and each branch is
/// `((start, end), (attrs...), [body...], (introduced...))`. For a `ForNode`,
/// branch 0 is the loop body and branch 1 (when present) is the `<c-empty>` body.
pub fn lower_control_flow(
    idx: usize,
    name: String,
    arguments: Vec<LangSpecArgument>,
    is_for: bool,
) -> (r: PlanNode)
    ensures
        lowered_flow(idx as int, name, arguments@, is_for, r),
    decreases arguments@, 1nat,
{
    let ghost args = arguments@;
    let ghost orig = arguments;
    let mut args_vec = arguments;
    if args_vec.len() <= 1 {
        return PlanNode::Foreign { idx, node: name };
    }
    let second = args_vec.swap_remove(1);
    let branches_ir = match second {
        LangSpecArgument::Tuple(branches) => branches,
        _ => {
            return PlanNode::Foreign { idx, node: name };
        },
    };
    let ghost branches = branches_ir@;
    let ghost tup = args[1];
    proof {
        assert(decreases_to!(orig@ => orig@[1]));
        assert(decreases_to!(tup => tup->Tuple_0));
        assert(decreases_to!(orig@ => tup->Tuple_0));
    }
    let nb = branches_ir.len();
    let mut sub_plans: Vec<Vec<PlanNode>> = Vec::new();
    let mut k: usize = 0;
    for branch in it: branches_ir
        invariant
            branches == it.seq(),
            k == it.index(),
            args.len() > 1,
            args == orig@,
            orig == arguments,
            tup == args[1],
            tup is Tuple,
            branches == tup->Tuple_0@,
            decreases_to!(orig@ => tup->Tuple_0),
            branches.len() == nb,
            sub_plans@.len() == k,
            forall|j: int| 0 <= j < k ==> (#[trigger] branch_items(branches[j])) is Some,
            lowered_branches(branches.take(k as int), sub_plans@),
    {
        let ghost b = branch;
        match extract_branch_body(branch) {
            Some(body_items) => {
                proof {
                    let bv = tup->Tuple_0;
                    assert(b == bv@[k as int]);
                    assert(decreases_to!(bv => bv@));
                    assert(decreases_to!(bv@ => bv@[k as int]));
                    let parts = b->Tuple_0;
                    assert(decreases_to!(b => parts));
                    assert(decreases_to!(parts => parts@));
                    assert(decreases_to!(parts@ => parts@[2]));
                    assert(decreases_to!(parts@[2] => body_items));
                    assert(decreases_to!(body_items => body_items@));
                    assert(decreases_to!(orig@ => body_items@));
                }
                let plan = lower_body(body_items);
                proof {
                    assert(lowered_branch(b, plan@));
                }
                let ghost prev = sub_plans@;
                sub_plans.push(plan);
                proof {
                    assert(branches.take(k + 1)[k as int] == b);
                    assert(sub_plans@[k as int] == plan);
                    assert(branches.take(k + 1).subrange(0, k as int) =~= branches.take(k as int));
                    assert(sub_plans@.subrange(0, k as int) =~= prev);
                }
                k = k + 1;
            },
            None => {
                proof {
                    assert(branch_items(branches[k as int]) is None);
                    assert(!all_branches_have_bodies(branches));
                }
                return PlanNode::Foreign { idx, node: name };
            },
        }
    }
    proof {
        assert(branches.take(k as int) =~= branches);
        assert(all_branches_have_bodies(branches));
    }
    if is_for {
        if sub_plans.len() == 0 {
            PlanNode::For { idx, loop_body: Vec::new(), empty_body: None }
        } else if sub_plans.len() == 1 {
            let ghost plans = sub_plans@;
            let loop_body = sub_plans.remove(0);
            proof {
                lemma_branch_at(branches, plans, 0);
            }
            PlanNode::For { idx, loop_body, empty_body: None }
        } else {
            let ghost plans = sub_plans@;
            let empty = sub_plans.remove(1);
            let loop_body = sub_plans.remove(0);
            proof {
                lemma_branch_at(branches, plans, 0);
                lemma_branch_at(branches, plans, 1);
            }
            PlanNode::For { idx, loop_body, empty_body: Some(empty) }
        }
    } else {
        PlanNode::If { idx, branches: sub_plans }
    }
}

/// Branch `k` of a lowered list of branches is lowered.
proof fn lemma_branch_at(branches: Seq<LangSpecArgument>, plans: Seq<Vec<PlanNode>>, k: int)
    requires
        lowered_branches(branches, plans),
        0 <= k < branches.len(),
    ensures
        lowered_branch(branches[k], plans[k]@),
    decreases branches.len(),
{
    if k < branches.len() - 1 {
        let b = branches.subrange(0, branches.len() - 1);
        let p = plans.subrange(0, plans.len() - 1);
        lemma_branch_at(b, p, k);
        assert(b[k] == branches[k]);
        assert(p[k] == plans[k]);
    }
}

/// Pull the body item list out of one control-flow branch tuple
/// `((start, end), (attrs...), [body...], (introduced...))`; the body is at
/// index 2.
fn extract_branch_body(branch: LangSpecArgument) -> (r: Option<Vec<LangSpecArgument>>)
    ensures
        match r {
            Some(v) => branch matches LangSpecArgument::Tuple(parts) && parts@.len() > 2
                && parts@[2] == LangSpecArgument::List(v),
            None => branch_items(branch) is None,
        },
{
    let mut parts = match branch {
        LangSpecArgument::Tuple(parts) => parts,
        _ => {
            return None;
        },
    };
    if parts.len() <= 2 {
        return None;
    }
    match parts.swap_remove(2) {
        LangSpecArgument::List(items) => Some(items),
        _ => None,
    }
}

/// Pull the expression text and used-variable names out of an `ExprNode`
/// struct, whose argument order is `(source, (start, end), expr, (var...))`.
fn extract_expr_node(args: &[LangSpecArgument]) -> (r: (String, Vec<String>))
    ensures
        r.0@ == expr_text(args@),
        string_views(r.1@) == expr_vars(args@),
{
    let expr = if args.len() > 2 {
        match &args[2] {
            LangSpecArgument::UnsafeString(s) => s.clone(),
            _ => String::new(),
        }
    } else {
        String::new()
    };
    let mut used_vars: Vec<String> = Vec::new();
    if args.len() > 3 {
        if let LangSpecArgument::Tuple(items) = &args[3] {
            let mut i: usize = 0;
            while i < items.len()
                invariant
                    i <= items@.len(),
                    string_views(used_vars@) == safe_strings(items@.take(i as int)),
                decreases items@.len() - i,
            {
                let ghost prev = used_vars@;
                if let LangSpecArgument::SafeString(v) = &items[i] {
                    used_vars.push(v.clone());
                    proof {
                        assert(string_views(used_vars@) =~= string_views(prev).push(v@));
                    }
                }
                proof {
                    assert(items@.take(i + 1).drop_last() =~= items@.take(i as int));
                }
                i = i + 1;
            }
            proof {
                assert(items@.take(i as int) =~= items@);
            }
        }
    }
    (expr, used_vars)
}

/// The output key of an attribute written as `raw_key`: without a `c-`
/// prefix.
pub fn output_key(raw_key: &str) -> (r: String)
    ensures
        r@ == out_key(raw_key@),
{
    let chars = str_to_chars(raw_key);
    if chars.len() >= 2 && chars[0] == 'c' && chars[1] == '-' {
        proof {
            assert(chars@.subrange(2, chars@.len() as int) =~= chars@.skip(2));
        }
        substring(&chars, 2, chars.len())
    } else {
        proof {
            assert(chars@.subrange(0, chars@.len() as int) =~= chars@);
        }
        substring(&chars, 0, chars.len())
    }
}

/// The output key of an attribute written as `raw_key`, or `None` when the
/// attribute is not simple: a nested-template value, the `c-bind` spread, or
/// a `class`/`style` key (those merge structured values).
pub fn simple_output_key(raw_key: &str, is_template: bool) -> (r: Option<String>)
    ensures
        match r {
            Some(k) => !is_template && raw_key@ != seq!['c', '-', 'b', 'i', 'n', 'd']
                && out_key(raw_key@) != seq!['c', 'l', 'a', 's', 's'] && out_key(raw_key@) != seq![
                's',
                't',
                'y',
                'l',
                'e',
            ] && k@ == out_key(raw_key@),
            None => is_template || raw_key@ == seq!['c', '-', 'b', 'i', 'n', 'd'] || out_key(
                raw_key@,
            ) == seq!['c', 'l', 'a', 's', 's'] || out_key(raw_key@) == seq![
                's',
                't',
                'y',
                'l',
                'e',
            ],
        },
{
    if is_template {
        return None;
    }
    proof {
        reveal_strlit("c-bind");
        reveal_strlit("class");
        reveal_strlit("style");
        assert("c-bind"@ =~= seq!['c', '-', 'b', 'i', 'n', 'd']);
        assert("class"@ =~= seq!['c', 'l', 'a', 's', 's']);
        assert("style"@ =~= seq!['s', 't', 'y', 'l', 'e']);
    }
    if str_eq(raw_key, "c-bind") {
        return None;
    }
    let out = output_key(raw_key);
    if str_eq(out.as_str(), "class") || str_eq(out.as_str(), "style") {
        return None;
    }
    assert(raw_key@ != seq!['c', '-', 'b', 'i', 'n', 'd']);
    assert(out@ != seq!['c', 'l', 'a', 's', 's']);
    assert(out@ != seq!['s', 't', 'y', 'l', 'e']);
    Some(out)
}

/// Extract the output attribute keys from an `ElementAttrsNode` struct
/// (argument order `(source, (start, end), (attr...), (used_vars...))`),
/// or `None` if the region uses a form not modelled here.
fn lower_element_attrs_keys(args: &[LangSpecArgument]) -> (r: Option<Vec<String>>)
    ensures
        match element_attrs_keys(args@) {
            Some(ks) => r matches Some(v) && string_views(v@) == ks,
            None => r is None,
        },
{
    if args.len() <= 2 {
        return None;
    }
    let attrs = match &args[2] {
        LangSpecArgument::Tuple(attrs) => attrs,
        _ => {
            return None;
        },
    };
    let mut keys: Vec<String> = Vec::new();
    let mut i: usize = 0;
    while i < attrs.len()
        invariant
            i <= attrs@.len(),
            args@.len() > 2,
            args@[2] == LangSpecArgument::Tuple(*attrs),
            simple_attr_keys(attrs@.take(i as int)) == Some(string_views(keys@)),
        decreases attrs@.len() - i,
    {
        proof {
            assert(attrs@.take(i + 1).drop_last() =~= attrs@.take(i as int));
        }
        let key = match &attrs[i] {
            LangSpecArgument::Struct(s) => {
                let is_template = str_eq(s.name.as_str(), TEMPLATE_ATTR_NODE);
                if s.arguments.len() > 2 {
                    match &s.arguments[2] {
                        LangSpecArgument::UnsafeString(k) => simple_output_key(
                            k.as_str(),
                            is_template,
                        ),
                        _ => None,
                    }
                } else {
                    None
                }
            },
            _ => None,
        };
        match key {
            Some(k) => {
                let ghost prev = keys@;
                keys.push(k);
                proof {
                    assert(string_views(keys@) =~= string_views(prev).push(k@));
                }
            },
            None => {
                proof {
                    assert(simple_attr_keys(attrs@.take(i + 1)) is None);
                    lemma_keys_prefix_none(attrs@, (i + 1) as int);
                    assert(attrs@.take(attrs@.len() as int) =~= attrs@);
                }
                return None;
            },
        }
        i = i + 1;
    }
    proof {
        assert(attrs@.take(i as int) =~= attrs@);
    }
    Some(keys)
}

/// Once a prefix of the attributes is not simple, no longer prefix is.
proof fn lemma_keys_prefix_none(attrs: Seq<LangSpecArgument>, n: int)
    requires
        0 <= n <= attrs.len(),
        simple_attr_keys(attrs.take(n)) is None,
    ensures
        simple_attr_keys(attrs.take(attrs.len() as int)) is None,
    decreases attrs.len() - n,
{
    if n < attrs.len() {
        assert(attrs.take(n + 1).drop_last() =~= attrs.take(n));
        lemma_keys_prefix_none(attrs, n + 1);
    }
}

} // verus!
