//! The body executor's bookkeeping: which items of a folded body the
//! executor formats itself, and how the parts it produces are gathered.
//!
//! The executor walks a body item by item. Static text, scalar
//! interpolations and simple attribute regions become text; everything
//! else is handed to the host, which returns a live part. Consecutive text
//! is gathered into a single part, so a run of cheap items costs one part.

use vstd::prelude::*;

use crate::constants::TEMPLATE_ATTR_NODE;
use crate::lang::lang::LangSpecArgument;
use crate::render_plan::{out_key, simple_attr_key, simple_attr_keys, simple_output_key};
use crate::text::push_str;

verus! {

/// One part of a rendered body: text, or a live host value (by handle).
#[derive(Debug, Clone, PartialEq, Eq)]
pub enum Part {
    Text(String),
    Live(usize),
}

/// The text of a text part (empty for a live part).
pub open spec fn part_text(p: Part) -> Seq<char> {
    match p {
        Part::Text(s) => s@,
        Part::Live(_) => Seq::empty(),
    }
}

/// The runs of text between live parts (one more run than live parts).
pub open spec fn part_runs(parts: Seq<Part>) -> Seq<Seq<char>>
    decreases parts.len(),
{
    if parts.len() == 0 {
        seq![Seq::empty()]
    } else {
        let r = part_runs(parts.drop_last());
        if parts.last() is Text {
            r.update(r.len() - 1, r.last() + part_text(parts.last()))
        } else {
            r.push(Seq::empty())
        }
    }
}

/// The handles of the live parts, in order.
pub open spec fn live_parts(parts: Seq<Part>) -> Seq<usize>
    decreases parts.len(),
{
    if parts.len() == 0 {
        Seq::empty()
    } else if parts.last() is Text {
        live_parts(parts.drop_last())
    } else {
        live_parts(parts.drop_last()).push(parts.last()->Live_0)
    }
}

/// Whether no two text parts are adjacent and no text part is empty.
pub open spec fn parts_merged(parts: Seq<Part>) -> bool {
    &&& forall|i: int|
        0 <= i < parts.len() - 1 ==> !(#[trigger] parts[i] is Text && parts[i + 1] is Text)
    &&& forall|i: int| 0 <= i < parts.len() && #[trigger] parts[i] is Text ==> part_text(parts[i]).len() > 0
}

proof fn lemma_part_runs_len(parts: Seq<Part>)
    ensures
        part_runs(parts).len() == live_parts(parts).len() + 1,
    decreases parts.len(),
{
    if parts.len() > 0 {
        lemma_part_runs_len(parts.drop_last());
    }
}

/// Gather consecutive text parts into one and drop empty ones. The text
/// between live parts and the live parts themselves are unchanged.
pub fn merge_text_parts(pieces: Vec<Part>) -> (r: Vec<Part>)
    ensures
        parts_merged(r@),
        part_runs(r@) == part_runs(pieces@),
        live_parts(r@) == live_parts(pieces@),
{
    let ghost all = pieces@;
    let n = pieces.len();
    let mut out: Vec<Part> = Vec::new();
    let mut run = String::new();
    let mut i: usize = 0;
    for piece in it: pieces
        invariant
            all == it.seq(),
            all.len() == n,
            i == it.index(),
            parts_merged(out@),
            out@.len() > 0 ==> !(out@.last() is Text),
            part_runs(all.take(i as int)) == part_runs(out@).drop_last().push(run@),
            live_parts(all.take(i as int)) == live_parts(out@),
    {
        proof {
            lemma_part_runs_len(out@);
            assert(all.take(i + 1).drop_last() =~= all.take(i as int));
            assert(all.take(i + 1).last() == piece);
        }
        match piece {
            Part::Text(s) => {
                let ghost before = run@;
                push_str(&mut run, s.as_str());
                proof {
                    let r = part_runs(out@).drop_last().push(before);
                    assert(r.update(r.len() - 1, r.last() + s@) =~= part_runs(out@).drop_last().push(
                        run@,
                    ));
                }
            },
            Part::Live(h) => {
                let ghost out0 = out@;
                let ghost run0 = run@;
                if !run.as_str().is_empty() {
                    out.push(Part::Text(run));
                    run = String::new();
                    proof {
                        assert(out@.drop_last() =~= out0);
                        lemma_part_runs_len(out0);
                        assert(part_runs(out@) =~= part_runs(out0).drop_last().push(run0));
                    }
                } else {
                    proof {
                        assert(run0 =~= Seq::<char>::empty());
                    }
                }
                let ghost out1 = out@;
                out.push(Part::Live(h));
                proof {
                    assert(out@.drop_last() =~= out1);
                    lemma_part_runs_len(out1);
                    assert(part_runs(out@) =~= part_runs(out1).push(Seq::empty()));
                    assert(part_runs(out0).drop_last().push(run0).push(Seq::<char>::empty())
                        =~= part_runs(out@).drop_last().push(run@));
                    assert(parts_merged(out@));
                }
            },
        }
        i = i + 1;
    }
    let ghost out0 = out@;
    let ghost run0 = run@;
    if !run.as_str().is_empty() {
        out.push(Part::Text(run));
        proof {
            assert(out@.drop_last() =~= out0);
            lemma_part_runs_len(out0);
            assert(parts_merged(out@));
        }
    }
    proof {
        assert(all.take(i as int) =~= all);
        lemma_part_runs_len(out0);
        if run0.len() == 0 {
            assert(run0 =~= Seq::<char>::empty());
            assert(part_runs(out0).drop_last().push(run0) =~= part_runs(out0));
        }
    }
    out
}

/// Whether an attribute written as `raw` (a nested template when
/// `is_template`) can be formatted by the executor.
pub open spec fn attr_is_simple(raw: Seq<char>, is_template: bool) -> bool {
    &&& !is_template
    &&& raw != seq!['c', '-', 'b', 'i', 'n', 'd']
    &&& out_key(raw) != seq!['c', 'l', 'a', 's', 's']
    &&& out_key(raw) != seq!['s', 't', 'y', 'l', 'e']
}

/// Whether an attribute region can be formatted by the executor: every
/// attribute is a plain static or expression attribute (not a nested
/// template), there is no `c-bind` spread, and no `class`/`style` key.
pub fn is_simple_attrs(raw_keys: &Vec<String>, is_template: &Vec<bool>) -> (r: bool)
    requires
        raw_keys@.len() == is_template@.len(),
    ensures
        r == forall|j: int|
            0 <= j < raw_keys@.len() ==> attr_is_simple(
                #[trigger] raw_keys@[j]@,
                is_template@[j],
            ),
{
    let mut i: usize = 0;
    while i < raw_keys.len()
        invariant
            raw_keys@.len() == is_template@.len(),
            i <= raw_keys@.len(),
            forall|j: int|
                0 <= j < i ==> attr_is_simple(#[trigger] raw_keys@[j]@, is_template@[j]),
        decreases raw_keys@.len() - i,
    {
        match simple_output_key(raw_keys[i].as_str(), is_template[i]) {
            Some(_) => {},
            None => {
                return false;
            },
        }
        i = i + 1;
    }
    true
}

/// How the executor handles one item of a folded body.
#[derive(Debug, Clone, Copy, PartialEq, Eq)]
pub enum ItemKind {
    /// Static text.
    Text,
    /// A `{{ expr }}` interpolation.
    Expr,
    /// A simple attribute region.
    Attrs,
    /// Anything else: handed to the host.
    Node,
}

/// Classify one item of a folded body. An attribute region is only taken on
/// when `attrs_fast_path` is set (no subscriber needs to see it resolved)
/// and it is simple.
pub fn classify_item(is_text: bool, is_expr: bool, attrs_fast_path: bool, is_attrs: bool, simple: bool)
    -> (r: ItemKind)
    ensures
        r == (if is_text {
            ItemKind::Text
        } else if is_expr {
            ItemKind::Expr
        } else if attrs_fast_path && is_attrs && simple {
            ItemKind::Attrs
        } else {
            ItemKind::Node
        }),
{
    if is_text {
        ItemKind::Text
    } else if is_expr {
        ItemKind::Expr
    } else if attrs_fast_path && is_attrs && simple {
        ItemKind::Attrs
    } else {
        ItemKind::Node
    }
}

/// Whether `raw_keys[j]` and `is_template[j]` are the key and the kind of
/// attribute struct `attrs[j]` (its key string, and whether it is a
/// nested-template attribute), for every `j`.
pub open spec fn attrs_described(
    attrs: Seq<LangSpecArgument>,
    raw_keys: Seq<Seq<char>>,
    is_template: Seq<bool>,
) -> bool {
    &&& attrs.len() == raw_keys.len()
    &&& attrs.len() == is_template.len()
    &&& forall|j: int|
        0 <= j < attrs.len() ==> {
            let a = #[trigger] attrs[j];
            &&& a is Struct
            &&& a->Struct_0.arguments@.len() > 2
            &&& a->Struct_0.arguments@[2] is UnsafeString
            &&& a->Struct_0.arguments@[2]->UnsafeString_0@ == raw_keys[j]
            &&& is_template[j] == (a->Struct_0.name@ == TEMPLATE_ATTR_NODE@)
        }
}

/// The executor takes on exactly the attribute regions the render plan
/// models: the attributes are all simple for `is_simple_attrs` just when the
/// plan gives their keys, and those keys are the attributes' output keys.
pub proof fn lemma_simple_attrs_match_plan(
    attrs: Seq<LangSpecArgument>,
    raw_keys: Seq<Seq<char>>,
    is_template: Seq<bool>,
)
    requires
        attrs_described(attrs, raw_keys, is_template),
    ensures
        (simple_attr_keys(attrs) is Some) == (forall|j: int|
            0 <= j < raw_keys.len() ==> attr_is_simple(#[trigger] raw_keys[j], is_template[j])),
        simple_attr_keys(attrs) matches Some(ks) ==> ks == raw_keys.map_values(
            |k: Seq<char>| out_key(k),
        ),
    decreases attrs.len(),
{
    if attrs.len() > 0 {
        let n = attrs.len() - 1;
        let pa = attrs.drop_last();
        let pk = raw_keys.drop_last();
        let pt = is_template.drop_last();
        assert forall|j: int| 0 <= j < pa.len() implies {
            let a = #[trigger] pa[j];
            &&& a is Struct
            &&& a->Struct_0.arguments@.len() > 2
            &&& a->Struct_0.arguments@[2] is UnsafeString
            &&& a->Struct_0.arguments@[2]->UnsafeString_0@ == pk[j]
            &&& pt[j] == (a->Struct_0.name@ == TEMPLATE_ATTR_NODE@)
        } by {
            assert(pa[j] == attrs[j]);
        }
        lemma_simple_attrs_match_plan(pa, pk, pt);
        let last = attrs[n];
        assert(last == attrs[n]);
        assert((simple_attr_key(last) is Some) == attr_is_simple(raw_keys[n], is_template[n]));
        if simple_attr_keys(attrs) is Some {
            assert forall|j: int| 0 <= j < raw_keys.len() implies attr_is_simple(
                #[trigger] raw_keys[j],
                is_template[j],
            ) by {
                if j < n {
                    assert(pk[j] == raw_keys[j]);
                    assert(pt[j] == is_template[j]);
                }
            }
            assert(simple_attr_keys(attrs)->Some_0 =~= raw_keys.map_values(
                |k: Seq<char>| out_key(k),
            ));
        } else {
            if forall|j: int| 0 <= j < raw_keys.len() ==> attr_is_simple(
                #[trigger] raw_keys[j],
                is_template[j],
            ) {
                assert forall|j: int| 0 <= j < pk.len() implies attr_is_simple(
                    #[trigger] pk[j],
                    pt[j],
                ) by {
                    assert(pk[j] == raw_keys[j]);
                    assert(pt[j] == is_template[j]);
                }
                assert(attr_is_simple(raw_keys[n], is_template[n]));
            }
        }
    }
}

} // verus!
