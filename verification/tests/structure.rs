// Tests of the tree the parser gives for element markup, and of the node
// structs the compiler produces for it.

use citry_template_parser::ast::TemplateElement;
use citry_template_parser::compiler::compile_template_body;
use citry_template_parser::lang::lang::{Lang, LangImpl, LangSpecArgument};
use citry_template_parser::parser::parse_template;

fn heads(src: &str) -> Vec<(String, Option<(usize, usize)>, Option<usize>)> {
    let items = compile_template_body(parse_template(src, None, None).expect("parse failed"))
        .expect("compile failed");
    items
        .iter()
        .filter_map(|a| match a {
            LangSpecArgument::Struct(st) => {
                let (pos, count) = match st.arguments.get(1) {
                    Some(LangSpecArgument::Tuple(t)) => match t.as_slice() {
                        [LangSpecArgument::Int(s), LangSpecArgument::Int(e)] => (Some((*s, *e)), None),
                        other => (None, Some(other.len())),
                    },
                    _ => (None, None),
                };
                Some((st.name.clone(), pos, count))
            },
            _ => None,
        })
        .collect()
}

#[test]
fn nested_elements_parse_to_nested_nodes() {
    let t = parse_template("<div><p>x</p>y</div>", None, None).unwrap();
    assert_eq!(t.elements.len(), 1);
    let TemplateElement::Node(div) = &t.elements[0] else { panic!("not a node") };
    assert_eq!(div.start_tag.name.content, "div");
    assert_eq!(div.end_tag.as_ref().unwrap().token.end_index, 20);
    let body = &div.body.as_ref().unwrap().elements;
    assert_eq!(body.len(), 2);
    assert!(matches!(&body[0], TemplateElement::Node(p) if p.start_tag.name.content == "p"));
    assert!(matches!(&body[1], TemplateElement::Text(t) if t.content == "y"));
}

#[test]
fn markup_with_dynamic_attributes_parses() {
    let t = parse_template("<a href=\"/x\" c-title=\" name \" hidden>go</a>", None, None).unwrap();
    let TemplateElement::Node(a) = &t.elements[0] else { panic!("not a node") };
    assert_eq!(a.start_tag.attrs.len(), 3);
    assert_eq!(a.used_vars.len(), 1);
    assert_eq!(a.used_vars[0].content, "name");
}

#[test]
fn element_attrs_node_records_the_start_tag() {
    let src = "<div c-id=\"x\" role=\"button\">y</div>";
    assert_eq!(heads(src), vec![("ElementAttrsNode".to_string(), Some((0, 28)), None)]);
}

#[test]
fn component_node_records_the_whole_tag() {
    let src = "a<c-button>x</c-button>";
    assert_eq!(heads(src), vec![("ComponentNode".to_string(), Some((1, 23)), None)]);
    assert_eq!(heads("<c-slot></c-slot>"), vec![("SlotNode".to_string(), Some((0, 17)), None)]);
}

#[test]
fn control_flow_groups_count_their_branches() {
    let src = "<c-if cond=\"a\">1</c-if> <c-elif cond=\"b\">2</c-elif>\n<c-else>3</c-else>";
    assert_eq!(heads(src), vec![("IfNode".to_string(), None, Some(3))]);
    let src = "<c-for each=\"i in xs\">{{ i }}</c-for><c-empty>none</c-empty><c-if cond=\"a\">1</c-if>";
    assert_eq!(
        heads(src),
        vec![("ForNode".to_string(), None, Some(2)), ("IfNode".to_string(), None, Some(1))]
    );
}

#[test]
fn structs_inside_html_bodies_follow_in_order() {
    let src = "<ul><li c-class=\"k\">{{ v }}</li><c-card></c-card></ul>";
    let h = heads(src);
    let names: Vec<&str> = h.iter().map(|x| x.0.as_str()).collect();
    assert_eq!(names, vec!["ElementAttrsNode", "ExprNode", "ComponentNode"]);
    assert_eq!(h[1].1, Some((20, 27)));
}

#[test]
fn languages_without_support_report_it_through_the_dispatch() {
    for (l, m) in [(Lang::Php, "PHP"), (Lang::Js, "JavaScript"), (Lang::Go, "Go"), (Lang::Rust, "Rust")] {
        assert_eq!(
            l.to_lang_impl().compile(vec![]),
            Err(format!("{m} code generation is not yet implemented"))
        );
    }
    assert_eq!(
        Lang::Php.to_lang_impl().parse_expression("x").map(|_| ()),
        Err("PHP expression parsing is not yet implemented".to_string())
    );
}

#[test]
fn loop_markup_parses_with_its_target() {
    let t = parse_template("<c-for each=\"item in items\">{{ item }}</c-for>", None, None).unwrap();
    let TemplateElement::Node(f) = &t.elements[0] else { panic!("not a node") };
    assert_eq!(f.introduced_vars.len(), 1);
    assert_eq!(f.introduced_vars[0].content, "item");
    assert_eq!(f.used_vars.len(), 1);
    assert_eq!(f.used_vars[0].content, "items");
    assert_eq!(t.used_vars.len(), 1);
}

#[test]
fn void_and_self_closing_tags_end_with_their_start_tag() {
    let t = parse_template("<p>a<br>b<img src=\"x\"/><c-card c-k=\"v\"/></p>", None, None).unwrap();
    let TemplateElement::Node(p) = &t.elements[0] else { panic!("not a node") };
    let body = &p.body.as_ref().unwrap().elements;
    assert_eq!(body.len(), 5);
    let TemplateElement::Node(br) = &body[1] else { panic!("not a node") };
    assert!(br.end_tag.is_none() && br.body.is_none());
    assert_eq!(br.start_tag.token.end_index, 8);
    let TemplateElement::Node(img) = &body[3] else { panic!("not a node") };
    assert!(img.start_tag.self_closing && img.end_tag.is_none());
    let TemplateElement::Node(card) = &body[4] else { panic!("not a node") };
    assert!(card.start_tag.self_closing);
    assert_eq!(card.used_vars[0].content, "v");
}

fn strings(src: &str) -> Vec<String> {
    compile_template_body(parse_template(src, None, None).expect("parse failed"))
        .expect("compile failed")
        .iter()
        .filter_map(|a| match a {
            LangSpecArgument::UnsafeString(s) | LangSpecArgument::SafeString(s) => Some(s.clone()),
            _ => None,
        })
        .collect()
}

#[test]
fn markup_around_dynamic_parts_is_kept_as_written() {
    assert_eq!(strings("<div c-id=\"x\">y</div>"), vec!["<div", ">y</div>"]);
    assert_eq!(strings("<br c-id=\"x\"/>"), vec!["<br", "/>"]);
    assert_eq!(strings("a<c-card>b</c-card>c"), vec!["a", "c"]);
    assert_eq!(
        strings("<p><c-if cond=\"x\">1</c-if> <c-else>2</c-else> </p>"),
        vec!["<p>", " </p>"]
    );
    assert_eq!(strings("x<c-raw><b>{{ y }}</b></c-raw>z"), vec!["x<b>{{ y }}</b>z"]);
}
