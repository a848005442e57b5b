// Tests of lowering templates into render plans.

use citry_template_parser::parser::parse_template;
use citry_template_parser::render_plan::{serialize_render_plan, PlanNode, RenderPlan};

fn plan_for(src: &str) -> RenderPlan {
    let template = parse_template(src, None, None).expect("parse failed");
    serialize_render_plan(template).expect("serialize failed")
}

#[test]
fn static_text_is_one_text_node() {
    let plan = plan_for("<p>hello</p>");
    assert_eq!(plan.body, vec![PlanNode::Text("<p>hello</p>".to_string())]);
}

#[test]
fn interpolation_becomes_expr_aligned_by_position() {
    let plan = plan_for("<p>{{ name }}</p>");
    // <p>  /  {{ name }}  /  </p>  -> Text, Expr, Text
    assert_eq!(plan.body.len(), 3);
    assert!(matches!(plan.body[0], PlanNode::Text(_)));
    match &plan.body[1] {
        PlanNode::Expr {
            idx,
            expr,
            used_vars,
        } => {
            assert_eq!(*idx, 1);
            assert_eq!(expr.trim(), "name");
            assert_eq!(used_vars, &vec!["name".to_string()]);
        }
        other => panic!("expected Expr, got {other:?}"),
    }
    assert!(matches!(plan.body[2], PlanNode::Text(_)));
}

#[test]
fn class_attr_element_stays_foreign() {
    // A `class` value merges across contributions, so the region is left to
    // the host.
    let plan = plan_for(r#"<div c-class="cls">x</div>"#);
    assert!(plan
        .body
        .iter()
        .any(|n| matches!(n, PlanNode::Foreign { node, .. } if node == "ElementAttrsNode")));
}

#[test]
fn simple_dynamic_attrs_are_modelled() {
    // id + a static attr, no class/style/bind: modelled with the output keys
    // (the `c-` prefix stripped).
    let plan = plan_for(r#"<div c-id="x" role="button">y</div>"#);
    let attrs = plan
        .body
        .iter()
        .find_map(|n| match n {
            PlanNode::ElementAttrs { keys, .. } => Some(keys.clone()),
            _ => None,
        })
        .expect("expected a modelled ElementAttrs node");
    assert_eq!(attrs, vec!["id".to_string(), "role".to_string()]);
}

#[test]
fn if_node_lowers_each_branch_body() {
    let plan = plan_for(r#"<c-if cond="x">yes</c-if><c-else>no</c-else>"#);
    let branches = plan
        .body
        .iter()
        .find_map(|n| match n {
            PlanNode::If { branches, .. } => Some(branches.clone()),
            _ => None,
        })
        .expect("expected an If node");
    assert_eq!(branches.len(), 2);
    assert!(matches!(branches[0].as_slice(), [PlanNode::Text(t)] if t.as_str() == "yes"));
    assert!(matches!(branches[1].as_slice(), [PlanNode::Text(t)] if t.as_str() == "no"));
}

#[test]
fn for_node_lowers_loop_and_empty_bodies() {
    let plan =
        plan_for(r#"<c-for each="item in items">{{ item }}</c-for><c-empty>none</c-empty>"#);
    let (loop_body, empty_body) = plan
        .body
        .iter()
        .find_map(|n| match n {
            PlanNode::For {
                loop_body,
                empty_body,
                ..
            } => Some((loop_body.clone(), empty_body.clone())),
            _ => None,
        })
        .expect("expected a For node");
    assert!(matches!(loop_body.as_slice(), [PlanNode::Expr { .. }]));
    let empty = empty_body.expect("expected an empty branch");
    assert!(matches!(empty.as_slice(), [PlanNode::Text(t)] if t.as_str() == "none"));
}

#[test]
fn component_tag_is_modelled() {
    let plan = plan_for("<c-button>x</c-button>");
    assert!(plan
        .body
        .iter()
        .any(|n| matches!(n, PlanNode::Component { .. })));
}
