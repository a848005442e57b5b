// Tests of the compiler's intermediate form, render-plan lowering and the
// plan walker.

use citry_template_parser::body::is_simple_attrs;
use citry_template_parser::compiler::{coalesce, compile_template_body};
use citry_template_parser::error::CompileError;
use citry_template_parser::lang::lang::{LangSpecArgument, LangSpecStruct};
use citry_template_parser::parser::parse_template;
use citry_template_parser::render_plan::{
    lower_body, lower_struct, output_key, serialize_render_plan, simple_output_key, PlanNode, RenderPlan,
};
use citry_template_parser::walk::{body_at, Action, LoopChoice, Walker};

fn unsafe_str(s: &str) -> LangSpecArgument {
    LangSpecArgument::UnsafeString(s.to_string())
}

fn compile(src: &str) -> Result<Vec<LangSpecArgument>, CompileError> {
    compile_template_body(parse_template(src, None, None).expect("parse failed"))
}

fn plan_of(src: &str) -> RenderPlan {
    serialize_render_plan(parse_template(src, None, None).expect("parse failed"))
        .expect("compile failed")
}

fn struct_name(a: &LangSpecArgument) -> Option<&str> {
    match a {
        LangSpecArgument::Struct(s) => Some(s.name.as_str()),
        _ => None,
    }
}

/// Check that every entry that is not text names its own position, in every
/// body of the plan, and that no two text entries are adjacent.
fn check_aligned(body: &[PlanNode]) {
    for (i, n) in body.iter().enumerate() {
        match n {
            PlanNode::Text(_) => {
                if i + 1 < body.len() {
                    assert!(!matches!(body[i + 1], PlanNode::Text(_)), "adjacent text entries");
                }
            }
            PlanNode::Expr { idx, .. }
            | PlanNode::ElementAttrs { idx, .. }
            | PlanNode::Component { idx }
            | PlanNode::Foreign { idx, .. } => assert_eq!(*idx, i),
            PlanNode::If { idx, branches } => {
                assert_eq!(*idx, i);
                for b in branches {
                    check_aligned(b);
                }
            }
            PlanNode::For { idx, loop_body, empty_body } => {
                assert_eq!(*idx, i);
                check_aligned(loop_body);
                if let Some(e) = empty_body {
                    check_aligned(e);
                }
            }
        }
    }
}

// --- compiler -------------------------------------------------------------

#[test]
fn coalesce_joins_adjacent_strings_and_drops_empty_ones() {
    let items = vec![
        unsafe_str("a"),
        LangSpecArgument::SafeString("b".to_string()),
        LangSpecArgument::Int(1),
        unsafe_str(""),
        unsafe_str("c"),
        LangSpecArgument::Bool(true),
        unsafe_str(""),
    ];
    let out = coalesce(items);
    assert_eq!(
        out,
        vec![unsafe_str("ab"), LangSpecArgument::Int(1), unsafe_str("c"), LangSpecArgument::Bool(true)]
    );
}

#[test]
fn static_markup_compiles_to_one_string() {
    let items = compile("a<b class=\"x\">c</b><br>d").unwrap();
    assert_eq!(items, vec![unsafe_str("a<b class=\"x\">c</b><br>d")]);
    assert_eq!(compile("").unwrap(), vec![]);
}

#[test]
fn interpolation_compiles_to_an_expr_node() {
    let items = compile("<p>{{ user.name }}</p>").unwrap();
    assert_eq!(items.len(), 3);
    assert_eq!(items[0], unsafe_str("<p>"));
    assert_eq!(struct_name(&items[1]), Some("ExprNode"));
    assert_eq!(items[2], unsafe_str("</p>"));
    match &items[1] {
        LangSpecArgument::Struct(LangSpecStruct { arguments, .. }) => {
            assert_eq!(arguments[0], LangSpecArgument::Variable("source".to_string()));
            assert_eq!(
                arguments[1],
                LangSpecArgument::Tuple(vec![LangSpecArgument::Int(3), LangSpecArgument::Int(18)])
            );
            assert_eq!(arguments[2], unsafe_str(" user.name "));
            assert_eq!(
                arguments[3],
                LangSpecArgument::Tuple(vec![LangSpecArgument::SafeString("user".to_string())])
            );
        }
        _ => unreachable!(),
    }
}

#[test]
fn control_flow_siblings_are_grouped() {
    let items = compile("<c-if cond=\"a\">A</c-if>\n  <c-elif cond=\"b\">B</c-elif> <c-else>C</c-else>!").unwrap();
    assert_eq!(items.len(), 2);
    assert_eq!(struct_name(&items[0]), Some("IfNode"));
    assert_eq!(items[1], unsafe_str("!"));
    match &items[0] {
        LangSpecArgument::Struct(LangSpecStruct { arguments, .. }) => match &arguments[1] {
            LangSpecArgument::Tuple(branches) => assert_eq!(branches.len(), 3),
            other => panic!("expected the branches, got {other:?}"),
        },
        _ => unreachable!(),
    }
}

#[test]
fn branch_bodies_hold_their_own_node_structs() {
    let items = compile("<c-if cond=\"a\"><c-button c-x=\"1\">go</c-button>{{ b }}</c-if>").unwrap();
    assert_eq!(items.len(), 1);
    let branches = match &items[0] {
        LangSpecArgument::Struct(LangSpecStruct { name, arguments }) => {
            assert_eq!(name, "IfNode");
            match &arguments[1] {
                LangSpecArgument::Tuple(b) => b.clone(),
                other => panic!("expected the branches, got {other:?}"),
            }
        }
        _ => unreachable!(),
    };
    assert_eq!(branches.len(), 1);
    let body = match &branches[0] {
        LangSpecArgument::Tuple(parts) => match &parts[2] {
            LangSpecArgument::List(body) => body.clone(),
            other => panic!("expected the branch body, got {other:?}"),
        },
        _ => unreachable!(),
    };
    assert_eq!(body.len(), 2);
    assert_eq!(struct_name(&body[0]), Some("ComponentNode"));
    assert_eq!(struct_name(&body[1]), Some("ExprNode"));
    match &body[0] {
        LangSpecArgument::Struct(LangSpecStruct { arguments, .. }) => {
            assert_eq!(
                arguments[1],
                LangSpecArgument::Tuple(vec![LangSpecArgument::Int(15), LangSpecArgument::Int(46)])
            );
            match &arguments[3] {
                LangSpecArgument::List(inner) => assert_eq!(inner, &vec![unsafe_str("go")]),
                other => panic!("expected the component body, got {other:?}"),
            }
        }
        _ => unreachable!(),
    }
}

#[test]
fn the_first_misplaced_tag_names_the_error() {
    let empty = CompileError::Syntax("<c-empty> must directly follow <c-for>".to_string());
    let other = CompileError::Syntax("<c-elif>/<c-else> must directly follow <c-if> or <c-elif>".to_string());
    assert_eq!(compile("<div><c-empty>x</c-empty></div><c-else>y</c-else>"), Err(empty.clone()));
    assert_eq!(compile("<c-else>a</c-else><c-empty>b</c-empty>"), Err(other.clone()));
    assert_eq!(
        compile("<c-if cond=\"a\"><c-empty>x</c-empty></c-if><c-else>y</c-else>"),
        Err(empty.clone())
    );
    let t = parse_template("<p><c-elif cond=\"a\">x</c-elif></p><c-empty>y</c-empty>", None, None).unwrap();
    match serialize_render_plan(t) {
        Err(e) => assert_eq!(e, other),
        Ok(_) => panic!("expected a compile error"),
    }
}

#[test]
fn misplaced_branches_are_syntax_errors() {
    assert_eq!(
        compile("<c-elif cond=\"a\">x</c-elif>"),
        Err(CompileError::Syntax("<c-elif>/<c-else> must directly follow <c-if> or <c-elif>".to_string()))
    );
    assert_eq!(
        compile("<c-if cond=\"a\">x</c-if>text<c-else>y</c-else>"),
        Err(CompileError::Syntax("<c-elif>/<c-else> must directly follow <c-if> or <c-elif>".to_string()))
    );
    assert_eq!(
        compile("<c-empty>x</c-empty>"),
        Err(CompileError::Syntax("<c-empty> must directly follow <c-for>".to_string()))
    );
    assert!(compile("<div><c-else>x</c-else></div>").is_err());
}

#[test]
fn dynamic_attributes_split_the_start_tag() {
    let items = compile("<a c-href=\"url\">x</a>").unwrap();
    assert_eq!(items.len(), 3);
    assert_eq!(items[0], unsafe_str("<a"));
    assert_eq!(struct_name(&items[1]), Some("ElementAttrsNode"));
    assert_eq!(items[2], unsafe_str(">x</a>"));
}

// --- render plans ---------------------------------------------------------

#[test]
fn lower_body_aligns_entries_with_items() {
    let items = vec![
        unsafe_str("<p>"),
        LangSpecArgument::Struct(LangSpecStruct {
            name: "ExprNode".to_string(),
            arguments: vec![
                LangSpecArgument::Variable("source".to_string()),
                LangSpecArgument::Tuple(vec![LangSpecArgument::Int(3), LangSpecArgument::Int(10)]),
                unsafe_str(" x "),
                LangSpecArgument::Tuple(vec![LangSpecArgument::SafeString("x".to_string())]),
            ],
        }),
        LangSpecArgument::Struct(LangSpecStruct { name: "SlotNode".to_string(), arguments: vec![] }),
        LangSpecArgument::Int(5),
    ];
    let nodes = lower_body(items);
    assert_eq!(
        nodes,
        vec![
            PlanNode::Text("<p>".to_string()),
            PlanNode::Expr { idx: 1, expr: " x ".to_string(), used_vars: vec!["x".to_string()] },
            PlanNode::Foreign { idx: 2, node: "SlotNode".to_string() },
            PlanNode::Foreign { idx: 3, node: "unknown".to_string() },
        ]
    );
}

#[test]
fn output_key_strips_the_c_prefix() {
    assert_eq!(output_key("c-title"), "title");
    assert_eq!(output_key("title"), "title");
    assert_eq!(output_key("c-"), "");
    assert_eq!(output_key("c"), "c");
    assert_eq!(output_key("cc-x"), "cc-x");
}

#[test]
fn simple_output_keys() {
    assert_eq!(simple_output_key("c-title", false), Some("title".to_string()));
    assert_eq!(simple_output_key("title", false), Some("title".to_string()));
    assert_eq!(simple_output_key("c-", false), Some("".to_string()));
    assert_eq!(simple_output_key("class", false), None);
    assert_eq!(simple_output_key("c-style", false), None);
    assert_eq!(simple_output_key("c-bind", false), None);
    assert_eq!(simple_output_key("c-title", true), None);
}

#[test]
fn plans_are_aligned_in_every_body() {
    let sources = [
        "<p>{{ a }}</p>{{ b }}<c-card c-x=\"1\">in</c-card><c-slot name=\"s\"></c-slot>",
        "<c-for each=\"i in xs\"><li c-id=\"i\">{{ i }}</li></c-for><c-empty>-</c-empty>tail",
        "<c-if cond=\"a\">{{ a }}<c-if cond=\"b\">b</c-if></c-if><c-else>{{ c }}</c-else>",
    ];
    for src in sources {
        let plan = plan_of(src);
        check_aligned(&plan.body);
    }
}

#[test]
fn unmodelled_tags_stay_foreign() {
    let plan = plan_of("x<c-slot name=\"s\"></c-slot>");
    assert_eq!(plan.body.len(), 2);
    assert_eq!(plan.body[1], PlanNode::Foreign { idx: 1, node: "SlotNode".to_string() });
}

#[test]
fn plan_length() {
    let plan = plan_of("a{{ b }}c");
    assert_eq!(plan.len(), 3);
    assert!(!plan.is_empty());
    let empty = plan_of("");
    assert_eq!(empty.len(), 0);
    assert!(empty.is_empty());
}

#[test]
fn compile_errors_reach_the_plan() {
    let t = parse_template("<c-else>x</c-else>", None, None).unwrap();
    assert!(matches!(serialize_render_plan(t), Err(CompileError::Syntax(_))));
}

// --- walking a plan -------------------------------------------------------

#[test]
fn walker_visits_branches_it_is_told_to_enter() {
    let plan = plan_of("A<c-if cond=\"x\">B</c-if>C");
    assert_eq!(plan.body.len(), 3);
    let mut w = Walker::new(&plan);
    assert_eq!(w.next(&plan), Action::Entry(0));
    assert_eq!(w.next(&plan), Action::Entry(1));
    assert!(!w.enter(&plan, 1, 1));
    assert!(w.enter(&plan, 0, 1));
    assert_eq!(w.current_path(), &vec![(1usize, 0usize)]);
    assert_eq!(body_at(&plan, w.current_path()), &vec![PlanNode::Text("B".to_string())]);
    assert_eq!(w.next(&plan), Action::Entry(0));
    assert_eq!(w.next(&plan), Action::ExitBody);
    assert!(w.current_path().is_empty());
    assert_eq!(w.next(&plan), Action::Entry(2));
    assert_eq!(w.next(&plan), Action::ExitBody);
    assert_eq!(w.next(&plan), Action::Done);
    assert_eq!(w.next(&plan), Action::Done);
}

#[test]
fn walker_repeats_a_loop_body() {
    let plan = plan_of("<c-for each=\"i in xs\">{{ i }}</c-for>");
    let mut w = Walker::new(&plan);
    assert!(!w.enter(&plan, 0, 1));
    assert_eq!(w.next(&plan), Action::Entry(0));
    assert!(!w.enter(&plan, 1, 1));
    assert!(w.enter(&plan, 0, 2));
    assert_eq!(w.next(&plan), Action::Entry(0));
    assert_eq!(w.next(&plan), Action::NextIteration);
    assert_eq!(w.next(&plan), Action::Entry(0));
    assert_eq!(w.next(&plan), Action::ExitBody);
    assert_eq!(w.next(&plan), Action::ExitBody);
    assert_eq!(w.next(&plan), Action::Done);
}

#[test]
fn walker_enters_the_empty_body_of_a_loop() {
    let plan = plan_of("<c-for each=\"i in xs\">{{ i }}</c-for><c-empty>none</c-empty>");
    let mut w = Walker::new(&plan);
    assert_eq!(w.next(&plan), Action::Entry(0));
    assert!(w.enter(&plan, 1, 1));
    assert_eq!(body_at(&plan, w.current_path()), &vec![PlanNode::Text("none".to_string())]);
    assert_eq!(w.next(&plan), Action::Entry(0));
    assert_eq!(w.next(&plan), Action::ExitBody);
    assert_eq!(w.next(&plan), Action::ExitBody);
    assert_eq!(w.next(&plan), Action::Done);
}

#[test]
fn walker_of_an_empty_plan_is_done_at_once() {
    let plan = RenderPlan { body: vec![] };
    let mut w = Walker::new(&plan);
    assert_eq!(w.next(&plan), Action::ExitBody);
    assert_eq!(w.next(&plan), Action::Done);
}

#[test]
fn static_markup_is_one_text_entry_holding_the_source() {
    let src = "<section id=\"s\">\n  <h1 class=\"t\">Title</h1>\n  <img src=\"a.png\"><br/>\n</section>";
    let plan = plan_of(src);
    assert_eq!(plan.body, vec![PlanNode::Text(src.to_string())]);
}

#[test]
fn compile_errors_are_syntax_errors() {
    for src in ["<c-else>x</c-else>", "<c-empty></c-empty>", "<c-elif cond=\"a\"></c-elif>"] {
        assert!(matches!(compile(src), Err(CompileError::Syntax(_))), "{src}");
    }
}

#[test]
fn plan_kinds_name_each_entry() {
    let plan = plan_of(
        "a{{ b }}<p c-id=\"x\">y</p><c-if cond=\"c\">z</c-if><c-for each=\"i in xs\">w</c-for><c-card></c-card><c-slot></c-slot>",
    );
    assert_eq!(
        plan.kinds(),
        vec![
            "text",
            "expr",
            "text",
            "foreign:ElementAttrsNode",
            "text",
            "foreign:IfNode",
            "foreign:ForNode",
            "foreign:ComponentNode",
            "foreign:SlotNode",
        ]
    );
    assert!(plan_of("").kinds().is_empty());
    for k in plan.kinds() {
        assert!(k == "text" || k == "expr" || k.starts_with("foreign:"), "{k}");
    }
}

#[test]
fn executor_and_plan_agree_on_attribute_regions() {
    let cases: [(&str, Vec<&str>); 4] = [
        ("<div c-id=\"x\" role=\"r\">y</div>", vec!["c-id", "role"]),
        ("<div c-class=\"x\">y</div>", vec!["c-class"]),
        ("<div c-bind=\"x\" c-title=\"t\">y</div>", vec!["c-bind", "c-title"]),
        ("<a c-href=\"u\" style=\"s\">y</a>", vec!["c-href", "style"]),
    ];
    for (src, raw_keys) in cases {
        let plan = plan_of(src);
        let raw: Vec<String> = raw_keys.iter().map(|k| k.to_string()).collect();
        let simple = is_simple_attrs(&raw, &vec![false; raw.len()]);
        let modelled = plan.body.iter().find_map(|n| match n {
            PlanNode::ElementAttrs { keys, .. } => Some(keys.clone()),
            _ => None,
        });
        assert_eq!(simple, modelled.is_some(), "{src}");
        if let Some(keys) = modelled {
            let expected: Vec<String> = raw.iter().map(|k| output_key(k)).collect();
            assert_eq!(keys, expected, "{src}");
        }
    }
}

#[test]
fn markup_with_interpolations_alternates_text_and_expr_entries() {
    let plan = plan_of("<ul><li>{{ a }}</li><li class=\"c\">x {{ b.c + a }}</li></ul>");
    assert_eq!(
        plan.body,
        vec![
            PlanNode::Text("<ul><li>".to_string()),
            PlanNode::Expr { idx: 1, expr: " a ".to_string(), used_vars: vec!["a".to_string()] },
            PlanNode::Text("</li><li class=\"c\">x ".to_string()),
            PlanNode::Expr {
                idx: 3,
                expr: " b.c + a ".to_string(),
                used_vars: vec!["b".to_string(), "a".to_string()],
            },
            PlanNode::Text("</li></ul>".to_string()),
        ]
    );
}

#[test]
fn adjacent_interpolations_have_no_text_between() {
    let plan = plan_of("{{ a }}{{ b }}");
    assert_eq!(
        plan.body,
        vec![
            PlanNode::Expr { idx: 0, expr: " a ".to_string(), used_vars: vec!["a".to_string()] },
            PlanNode::Expr { idx: 1, expr: " b ".to_string(), used_vars: vec!["b".to_string()] },
        ]
    );
}

#[test]
fn compile_fails_just_on_misplaced_branch_tags() {
    let ok = [
        "<c-if cond=\"a\">x</c-if>\n <c-elif cond=\"b\">y</c-elif>  <c-else>z</c-else>",
        "<c-for each=\"i in xs\">x</c-for>\t<c-empty>y</c-empty>",
        "<c-raw><c-else>x</c-else></c-raw>",
        "<div><c-if cond=\"a\">x</c-if><c-else>y</c-else></div>",
        "<c-if cond=\"a\">x</c-if><c-if cond=\"b\">y</c-if><c-else>z</c-else>",
    ];
    for src in ok {
        assert!(compile(src).is_ok(), "{src}");
    }
    let misplaced = [
        "<c-if cond=\"a\">x</c-if>text<c-else>y</c-else>",
        "<div><c-else>x</c-else></div>",
        "<c-card><c-empty>x</c-empty></c-card>",
        "<c-if cond=\"a\"><c-else>x</c-else></c-if>",
        "<c-for each=\"i in xs\">x</c-for><c-empty>y</c-empty><c-empty>z</c-empty>",
        "<c-if cond=\"a\">x</c-if><c-else>y</c-else><c-elif cond=\"b\">z</c-elif>",
        "<c-for each=\"i in xs\">x</c-for><c-else>y</c-else>",
        "<c-if cond=\"a\">x</c-if><c-empty>y</c-empty>",
        "{{ a }}<c-elif cond=\"b\">z</c-elif>",
    ];
    for src in misplaced {
        assert!(matches!(compile(src), Err(CompileError::Syntax(_))), "{src}");
    }
}

#[test]
fn walker_enters_only_a_selected_branch() {
    let plan = plan_of("<c-if cond=\"x\">B</c-if><c-else>C</c-else>");
    let mut w = Walker::new(&plan);
    assert_eq!(w.next(&plan), Action::Entry(0));
    assert!(!w.enter_selected(&plan, -1));
    assert!(w.current_path().is_empty());
    assert!(!w.enter_selected(&plan, 2));
    assert!(w.enter_selected(&plan, 1));
    assert_eq!(body_at(&plan, w.current_path()), &vec![PlanNode::Text("C".to_string())]);
}

#[test]
fn walker_chooses_between_loop_and_empty_bodies() {
    let plan = plan_of("<c-for each=\"i in xs\">{{ i }}</c-for><c-empty>none</c-empty>");
    let mut w = Walker::new(&plan);
    assert_eq!(w.next(&plan), Action::Entry(0));
    assert_eq!(w.enter_loop(&plan, 0, false), LoopChoice::Skip);
    assert!(w.current_path().is_empty());
    assert_eq!(w.enter_loop(&plan, 0, true), LoopChoice::Empty);
    assert_eq!(body_at(&plan, w.current_path()), &vec![PlanNode::Text("none".to_string())]);
    let mut w = Walker::new(&plan);
    assert_eq!(w.next(&plan), Action::Entry(0));
    assert_eq!(w.enter_loop(&plan, 3, true), LoopChoice::Loop);
    assert_eq!(w.current_path(), &vec![(0usize, 0usize)]);
}

#[test]
fn text_entries_are_written_as_they_are() {
    let mut out = String::from("<");
    assert!(citry_template_parser::walk::append_text_entry(&PlanNode::Text("b>".to_string()), &mut out));
    assert_eq!(out, "<b>");
    assert!(!citry_template_parser::walk::append_text_entry(&PlanNode::Component { idx: 0 }, &mut out));
    assert_eq!(out, "<b>");
}

#[test]
fn a_cloned_plan_is_equal() {
    let plan = plan_of("a<c-if cond=\"x\">B</c-if><c-for each=\"i in xs\">{{ i }}</c-for><c-empty>e</c-empty>");
    assert_eq!(plan.clone(), plan);
}

#[test]
fn lowering_a_struct_dispatches_on_its_name() {
    let s = LangSpecStruct { name: "ComponentNode".to_string(), arguments: vec![] };
    assert_eq!(lower_struct(3, s), PlanNode::Component { idx: 3 });
    let s = LangSpecStruct { name: "IfNode".to_string(), arguments: vec![] };
    assert_eq!(lower_struct(1, s), PlanNode::Foreign { idx: 1, node: "IfNode".to_string() });
}

fn branch_body(st: &LangSpecStruct, k: usize) -> Vec<LangSpecArgument> {
    match &st.arguments[1] {
        LangSpecArgument::Tuple(bs) => match &bs[k] {
            LangSpecArgument::Tuple(parts) => match &parts[2] {
                LangSpecArgument::List(items) => items.clone(),
                other => panic!("expected a branch body, got {other:?}"),
            },
            other => panic!("expected a branch, got {other:?}"),
        },
        other => panic!("expected the branches, got {other:?}"),
    }
}

/// Check that `nodes` lines up with `items` by position, sub-plans with the
/// bodies of their branches included.
fn check_line_up(items: &[LangSpecArgument], nodes: &[PlanNode]) {
    assert_eq!(items.len(), nodes.len());
    for (item, node) in items.iter().zip(nodes) {
        match (item, node) {
            (LangSpecArgument::UnsafeString(s), PlanNode::Text(t))
            | (LangSpecArgument::SafeString(s), PlanNode::Text(t)) => assert_eq!(s, t),
            (LangSpecArgument::Struct(st), PlanNode::If { branches, .. }) => {
                for (k, b) in branches.iter().enumerate() {
                    check_line_up(&branch_body(st, k), b);
                }
            }
            (LangSpecArgument::Struct(st), PlanNode::For { loop_body, empty_body, .. }) => {
                check_line_up(&branch_body(st, 0), loop_body);
                if let Some(e) = empty_body {
                    check_line_up(&branch_body(st, 1), e);
                }
            }
            (LangSpecArgument::Struct(_), PlanNode::Text(_)) => panic!("a struct became text"),
            (LangSpecArgument::Struct(_), _) => {}
            (other, n) => panic!("{other:?} does not line up with {n:?}"),
        }
    }
}

#[test]
fn plans_line_up_with_the_compiled_items() {
    let sources = [
        "a<c-if cond=\"x\">b{{ y }}<c-for each=\"i in xs\">{{ i }}</c-for></c-if>c",
        "<c-for each=\"i in xs\"><p c-id=\"i\">{{ i }}</p></c-for><c-empty>none</c-empty>",
        "<c-if cond=\"a\">1</c-if><c-elif cond=\"b\"><c-if cond=\"c\">2</c-if>3</c-elif><c-else>4</c-else>",
    ];
    for src in sources {
        let items = compile(src).unwrap();
        let plan = plan_of(src);
        check_line_up(&items, &plan.body);
    }
}

#[test]
fn a_group_records_the_variables_its_branches_read() {
    let items = compile("<c-if cond=\"a\">{{ b }}</c-if><c-else>{{ a }}{{ c }}</c-else>").unwrap();
    match &items[0] {
        LangSpecArgument::Struct(LangSpecStruct { name, arguments }) => {
            assert_eq!(name, "IfNode");
            let names: Vec<LangSpecArgument> =
                ["a", "b", "c"].iter().map(|n| LangSpecArgument::SafeString(n.to_string())).collect();
            assert_eq!(arguments[2], LangSpecArgument::Tuple(names));
        }
        other => panic!("expected the group, got {other:?}"),
    }
}
