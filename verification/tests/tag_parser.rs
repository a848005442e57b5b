// Tests of the template parser: tag structure, attributes, nested
// templates in attributes, composition, and raw content.

use citry_template_parser::ast::{
    AttrKind, EndTag, Node, StartTag, TagAttr, Template, TemplateElement, Token,
};
use citry_template_parser::parser::parse_template;

fn token(content: &str, start: usize, line: usize, col: usize) -> Token {
    Token {
        content: content.to_string(),
        start_index: start,
        end_index: start + content.chars().count(),
        line,
        col,
    }
}

fn template(elements: Vec<TemplateElement>) -> Template {
    template_with_vars(elements, vec![])
}

fn template_with_vars(elements: Vec<TemplateElement>, used_vars: Vec<Token>) -> Template {
    Template { elements, used_vars }
}

fn node_elem(node: Node) -> TemplateElement {
    TemplateElement::Node(node)
}

fn text_elem(text: &str, start: usize, line: usize, col: usize) -> TemplateElement {
    TemplateElement::Text(token(text, start, line, col))
}

fn start_tag(token: Token, name: Token, attrs: Vec<TagAttr>, self_closing: bool) -> StartTag {
    StartTag { token, name, attrs, self_closing }
}

fn end_tag(token: Token, name: Token) -> EndTag {
    EndTag { token, name }
}

fn body_node(start_tag: StartTag, end_tag: EndTag, body: Template) -> Node {
    let mut used_vars: Vec<Token> = Vec::new();
    for a in &start_tag.attrs {
        for v in &a.used_vars {
            if !used_vars.iter().any(|u| u.content == v.content) {
                used_vars.push(v.clone());
            }
        }
    }
    for v in &body.used_vars {
        if !used_vars.iter().any(|u| u.content == v.content) {
            used_vars.push(v.clone());
        }
    }
    Node {
        start_tag,
        end_tag: Some(end_tag),
        body: Some(body),
        used_vars,
        introduced_vars: vec![],
    }
}

fn self_closing_node(start_tag: StartTag) -> Node {
    self_closing_node_vars(start_tag, vec![])
}

fn self_closing_node_vars(start_tag: StartTag, used_vars: Vec<Token>) -> Node {
    Node { start_tag, end_tag: None, body: None, used_vars, introduced_vars: vec![] }
}

fn attr(key: Token, value: Option<Token>, kind: AttrKind, quoted: bool) -> TagAttr {
    TagAttr { key, value, kind, quoted, used_vars: vec![] }
}

fn static_attr(key: Token, value: Token) -> TagAttr {
    attr(key, Some(value), AttrKind::Static, true)
}

fn bool_attr(key: Token) -> TagAttr {
    attr(key, None, AttrKind::Boolean, false)
}

fn expr_attr(key: Token, value: Token) -> TagAttr {
    attr(key, Some(value), AttrKind::Expression, true)
}

fn expr_attr_unquoted(key: Token, value: Token) -> TagAttr {
    attr(key, Some(value), AttrKind::Expression, false)
}

fn template_attr(key: Token, value: Token) -> TagAttr {
    attr(key, Some(value), AttrKind::Template, true)
}

fn with_used_vars(mut attr: TagAttr, used_vars: Vec<Token>) -> TagAttr {
    attr.used_vars = used_vars;
    attr
}

fn assert_parse_error(input: &str, expected: &str) {
    match parse_template(input, None, None) {
        Ok(t) => panic!("expected a parse error for {:?}, got {:?}", input, t),
        Err(e) => {
            let message = e.message();
            assert!(
                message.contains(expected),
                "error for {:?} should contain {:?}, got {:?}",
                input,
                expected,
                message
            );
        }
    }
}

// ---- structure
#[test]
fn test_unclosed_tag_errors() {
    // Unclosed tags should produce an error
    assert_parse_error("<c-my-tag>", "error");
    assert_parse_error("<c-my-tag attr=\"val\">", "error");
    assert_parse_error("<div><c-my-tag></div>", "error");
}

#[test]
fn test_tag_with_close_tag() {
    // Input: <c-my-tag></c-my-tag>
    //        0123456789012345678901
    let input = "<c-my-tag></c-my-tag>";
    let result = parse_template(input, None, None).unwrap();

    let expected = template(vec![node_elem(body_node(
        start_tag(
            token("<c-my-tag>", 0, 1, 1),
            token("c-my-tag", 1, 1, 2),
            vec![],
            false,
        ),
        end_tag(
            token("</c-my-tag>", 10, 1, 11),
            token("c-my-tag", 12, 1, 13),
        ),
        template(vec![]),
    ))]);

    assert_eq!(result, expected);
}

#[test]
fn test_tag_with_close_tag_and_attrs() {
    // Input: <c-my-tag class="foo"></c-my-tag>
    //        0         1         2         3
    //        0123456789012345678901234567890123
    let input = r#"<c-my-tag class="foo"></c-my-tag>"#;
    let result = parse_template(input, None, None).unwrap();

    let expected = template(vec![node_elem(body_node(
        start_tag(
            token(r#"<c-my-tag class="foo">"#, 0, 1, 1),
            token("c-my-tag", 1, 1, 2),
            vec![static_attr(
                token("class", 10, 1, 11),
                token("foo", 17, 1, 18),
            )],
            false,
        ),
        end_tag(
            token("</c-my-tag>", 22, 1, 23),
            token("c-my-tag", 24, 1, 25),
        ),
        template(vec![]),
    ))]);

    assert_eq!(result, expected);
}

#[test]
fn test_end_tag_with_attrs_errors() {
    // End tags should not allow attributes
    assert_parse_error(
        r#"<c-my-tag></c-my-tag key="val">"#,
        "must not contain any attributes",
    );

    // End tag with boolean attribute should also fail
    assert_parse_error(
        r#"<c-my-tag></c-my-tag foo>"#,
        "must not contain any attributes",
    );

    // Same for HTML tags
    assert_parse_error(
        r#"<div></div class="foo">"#,
        "must not contain any attributes",
    );
}

#[test]
fn test_self_closing_tag() {
    // Input: <c-my-tag />
    //        0123456789012
    let input = "<c-my-tag />";
    let result = parse_template(input, None, None).unwrap();

    let expected = template(vec![node_elem(self_closing_node(start_tag(
        token("<c-my-tag />", 0, 1, 1),
        token("c-my-tag", 1, 1, 2),
        vec![],
        true,
    )))]);

    assert_eq!(result, expected);
}

#[test]
fn test_self_closing_tag_no_space() {
    // Input: <c-my-tag/>
    //        01234567890
    let input = "<c-my-tag/>";
    let result = parse_template(input, None, None).unwrap();

    let expected = template(vec![node_elem(self_closing_node(start_tag(
        token("<c-my-tag/>", 0, 1, 1),
        token("c-my-tag", 1, 1, 2),
        vec![],
        true,
    )))]);

    assert_eq!(result, expected);
}

#[test]
fn test_self_closing_tag_with_attrs() {
    // Input: <c-my-tag class="foo" />
    //        0         1         2
    //        012345678901234567890123
    let input = r#"<c-my-tag class="foo" />"#;
    let result = parse_template(input, None, None).unwrap();

    let expected = template(vec![node_elem(self_closing_node(start_tag(
        token(r#"<c-my-tag class="foo" />"#, 0, 1, 1),
        token("c-my-tag", 1, 1, 2),
        vec![static_attr(
            token("class", 10, 1, 11),
            token("foo", 17, 1, 18),
        )],
        true,
    )))]);

    assert_eq!(result, expected);
}

// ---- boolean_attrs
#[test]
fn test_positional_args_not_supported() {
    // Positional args (bare values without keys) are not supported
    // All attributes must be key=value pairs or boolean attributes
    let inputs = vec![
        "<c-my-tag value></c-my-tag>", // Boolean attr is OK
        "<c-my-tag value />",          // Boolean attr self-closing is OK
    ];

    // These should parse successfully as boolean attributes
    for input in inputs {
        let result = parse_template(input, None, None);
        assert!(
            result.is_ok(),
            "Input should succeed (boolean attr): {} - error: {:?}",
            input,
            result.err()
        );
    }
}

#[test]
fn test_boolean_attr_numeric() {
    // Numeric-looking text is still a valid attr name (no = sign, so it's boolean)
    // <c-my-tag 123></c-my-tag>
    // 0         1         2
    // 0123456789012345678901234
    let input = "<c-my-tag 123></c-my-tag>";
    let result = parse_template(input, None, None).unwrap();
    let expected = template(vec![node_elem(body_node(
        start_tag(
            token("<c-my-tag 123>", 0, 1, 1),
            token("c-my-tag", 1, 1, 2),
            vec![bool_attr(token("123", 10, 1, 11))],
            false,
        ),
        end_tag(
            token("</c-my-tag>", 14, 1, 15),
            token("c-my-tag", 16, 1, 17),
        ),
        template(vec![]),
    ))]);
    assert_eq!(result, expected);
}

#[test]
fn test_boolean_attr_quoted() {
    // Quoted strings are valid attr names (Chrome allows this)
    // <c-my-tag "hello"></c-my-tag>
    // 0         1         2
    // 0123456789012345678901234567890
    let input = r#"<c-my-tag "hello"></c-my-tag>"#;
    let result = parse_template(input, None, None).unwrap();
    let expected = template(vec![node_elem(body_node(
        start_tag(
            token(r#"<c-my-tag "hello">"#, 0, 1, 1),
            token("c-my-tag", 1, 1, 2),
            vec![bool_attr(token(r#""hello""#, 10, 1, 11))],
            false,
        ),
        end_tag(
            token("</c-my-tag>", 18, 1, 19),
            token("c-my-tag", 20, 1, 21),
        ),
        template(vec![]),
    ))]);
    assert_eq!(result, expected);
}

#[test]
fn test_boolean_attr_single_quoted() {
    // Single-quoted strings are valid attr names
    // <c-my-tag 'hello'></c-my-tag>
    // 0         1         2
    // 0123456789012345678901234567890
    let input = "<c-my-tag 'hello'></c-my-tag>";
    let result = parse_template(input, None, None).unwrap();
    let expected = template(vec![node_elem(body_node(
        start_tag(
            token("<c-my-tag 'hello'>", 0, 1, 1),
            token("c-my-tag", 1, 1, 2),
            vec![bool_attr(token("'hello'", 10, 1, 11))],
            false,
        ),
        end_tag(
            token("</c-my-tag>", 18, 1, 19),
            token("c-my-tag", 20, 1, 21),
        ),
        template(vec![]),
    ))]);
    assert_eq!(result, expected);
}

#[test]
fn test_boolean_attr_brackets() {
    // Brackets are valid in attr names (Angular-style binding syntax)
    // <c-my-tag [123]></c-my-tag>
    // 0         1         2
    // 012345678901234567890123456
    let input = "<c-my-tag [123]></c-my-tag>";
    let result = parse_template(input, None, None).unwrap();
    let expected = template(vec![node_elem(body_node(
        start_tag(
            token("<c-my-tag [123]>", 0, 1, 1),
            token("c-my-tag", 1, 1, 2),
            vec![bool_attr(token("[123]", 10, 1, 11))],
            false,
        ),
        end_tag(
            token("</c-my-tag>", 16, 1, 17),
            token("c-my-tag", 18, 1, 19),
        ),
        template(vec![]),
    ))]);
    assert_eq!(result, expected);
}

#[test]
fn test_boolean_attr_parens() {
    // Parentheses are valid in attr names (Angular-style event binding)
    // <c-my-tag (click)></c-my-tag>
    // 0         1         2
    // 0123456789012345678901234567890
    let input = "<c-my-tag (click)></c-my-tag>";
    let result = parse_template(input, None, None).unwrap();
    let expected = template(vec![node_elem(body_node(
        start_tag(
            token("<c-my-tag (click)>", 0, 1, 1),
            token("c-my-tag", 1, 1, 2),
            vec![bool_attr(token("(click)", 10, 1, 11))],
            false,
        ),
        end_tag(
            token("</c-my-tag>", 18, 1, 19),
            token("c-my-tag", 20, 1, 21),
        ),
        template(vec![]),
    ))]);
    assert_eq!(result, expected);
}

// ---- composition
#[test]
fn test_composition() {
    // <c-outer><c-inner /></c-outer>
    // 0        9         20
    let input = r#"<c-outer><c-inner /></c-outer>"#;
    let result = parse_template(input, None, None).unwrap();

    let expected = template(vec![node_elem(body_node(
        start_tag(
            token("<c-outer>", 0, 1, 1),
            token("c-outer", 1, 1, 2),
            vec![],
            false,
        ),
        end_tag(
            token("</c-outer>", 20, 1, 21),
            token("c-outer", 22, 1, 23),
        ),
        template(vec![node_elem(self_closing_node(start_tag(
            token("<c-inner />", 9, 1, 10),
            token("c-inner", 10, 1, 11),
            vec![],
            true,
        )))]),
    ))]);

    assert_eq!(result, expected);
}

#[test]
fn test_composition_with_mixed_content() {
    // <c-card><h1>Title</h1><p>Content</p></c-card>
    // 0       8   12   17   22  25      32  36
    let input = r#"<c-card><h1>Title</h1><p>Content</p></c-card>"#;
    let result = parse_template(input, None, None).unwrap();

    let expected = template(vec![node_elem(body_node(
        start_tag(
            token("<c-card>", 0, 1, 1),
            token("c-card", 1, 1, 2),
            vec![],
            false,
        ),
        end_tag(
            token("</c-card>", 36, 1, 37),
            token("c-card", 38, 1, 39),
        ),
        template(vec![
            node_elem(body_node(
                start_tag(
                    token("<h1>", 8, 1, 9),
                    token("h1", 9, 1, 10),
                    vec![],
                    false,
                ),
                end_tag(token("</h1>", 17, 1, 18), token("h1", 19, 1, 20)),
                template(vec![text_elem("Title", 12, 1, 13)]),
            )),
            node_elem(body_node(
                start_tag(
                    token("<p>", 22, 1, 23),
                    token("p", 23, 1, 24),
                    vec![],
                    false,
                ),
                end_tag(token("</p>", 32, 1, 33), token("p", 34, 1, 35)),
                template(vec![text_elem("Content", 25, 1, 26)]),
            )),
        ]),
    ))]);

    assert_eq!(result, expected);
}

#[test]
fn test_composition_mismatched_component_tags() {
    assert_parse_error(
        "<c-btn><c-table></c-btn></c-table>",
        "Mismatched tags",
    );
}

#[test]
fn test_composition_mismatched_html_tags() {
    assert_parse_error("<a><div></a></div>", "Mismatched tags");
}

// ---- dynamic_attrs
#[test]
fn test_c_attr_expression() {
    // <c-my-tag c-class="is_active" />
    // 0         1         2         3
    // 01234567890123456789012345678901
    let input = r#"<c-my-tag c-class="is_active" />"#;
    let result = parse_template(input, None, None).unwrap();

    let is_active_var = token("is_active", 19, 1, 20);

    let expected = template_with_vars(
        vec![node_elem(self_closing_node_vars(
            start_tag(
                token(r#"<c-my-tag c-class="is_active" />"#, 0, 1, 1),
                token("c-my-tag", 1, 1, 2),
                vec![with_used_vars(
                    expr_attr(
                        token("c-class", 10, 1, 11),
                        token("is_active", 19, 1, 20),
                    ),
                    vec![is_active_var.clone()],
                )],
                true,
            ),
            vec![is_active_var.clone()],
        ))],
        vec![is_active_var],
    );

    assert_eq!(result, expected);
}

#[test]
fn test_c_attr_unquoted_value() {
    // Unquoted c-* attribute value should be interpreted as Expression
    // <c-my-tag c-class=is_active />
    // 0         1         2
    // 012345678901234567890123456789
    let input = "<c-my-tag c-class=is_active />";
    let result = parse_template(input, None, None).unwrap();

    let is_active_var = token("is_active", 18, 1, 19);

    let expected = template_with_vars(
        vec![node_elem(self_closing_node_vars(
            start_tag(
                token("<c-my-tag c-class=is_active />", 0, 1, 1),
                token("c-my-tag", 1, 1, 2),
                vec![with_used_vars(
                    expr_attr_unquoted(
                        token("c-class", 10, 1, 11),
                        token("is_active", 18, 1, 19),
                    ),
                    vec![is_active_var.clone()],
                )],
                true,
            ),
            vec![is_active_var.clone()],
        ))],
        vec![is_active_var],
    );

    assert_eq!(result, expected);
}

#[test]
fn test_c_attr_with_template() {
    // c-* attribute with nested template (starts/ends with HTML)
    // <c-my-tag c-title="<span>{{ name }}</span>" />
    // 0         1         2         3         4
    // 0123456789012345678901234567890123456789012345
    let input = r#"<c-my-tag c-title="<span>{{ name }}</span>" />"#;
    let result = parse_template(input, None, None).unwrap();

    let name_var = token("name", 28, 1, 29);

    let expected = template_with_vars(
        vec![node_elem(self_closing_node_vars(
            start_tag(
                token(
                    r#"<c-my-tag c-title="<span>{{ name }}</span>" />"#,
                    0,
                    1,
                    1,
                ),
                token("c-my-tag", 1, 1, 2),
                vec![with_used_vars(
                    template_attr(
                        token("c-title", 10, 1, 11),
                        token("<span>{{ name }}</span>", 19, 1, 20),
                    ),
                    vec![name_var.clone()],
                )],
                true,
            ),
            vec![name_var.clone()],
        ))],
        vec![name_var],
    );

    assert_eq!(result, expected);
}

// ---- nested_templates
// --- Fragment syntax <>...</> ---

#[test]
fn test_c_attr_template_fragment() {
    // Fragment syntax <>...</> should be detected as Template kind
    // <c-my-tag c-body="<>Hello {{ name }}</>" />
    // 0         1         2         3         4
    // 0123456789012345678901234567890123456789012
    let input = r#"<c-my-tag c-body="<>Hello {{ name }}</>" />"#;
    let result = parse_template(input, None, None).unwrap();

    let name_var = token("name", 29, 1, 30);

    let expected = template_with_vars(
        vec![node_elem(self_closing_node_vars(
            start_tag(
                token(
                    r#"<c-my-tag c-body="<>Hello {{ name }}</>" />"#,
                    0,
                    1,
                    1,
                ),
                token("c-my-tag", 1, 1, 2),
                vec![with_used_vars(
                    template_attr(
                        token("c-body", 10, 1, 11),
                        token("<>Hello {{ name }}</>", 18, 1, 19),
                    ),
                    vec![name_var.clone()],
                )],
                true,
            ),
            vec![name_var.clone()],
        ))],
        vec![name_var],
    );

    assert_eq!(result, expected);
}

#[test]
fn test_c_attr_template_fragment_multiple_children() {
    // Fragment with multiple children
    // <c-my-tag c-body="<> <span>A</span> <span>B</span> </>" />
    // 0         1         2         3         4         5
    // 01234567890123456789012345678901234567890123456789012345678
    let input = r#"<c-my-tag c-body="<> <span>A</span> <span>B</span> </>" />"#;
    let result = parse_template(input, None, None).unwrap();

    let expected = template(vec![node_elem(self_closing_node(start_tag(
        token(
            r#"<c-my-tag c-body="<> <span>A</span> <span>B</span> </>" />"#,
            0,
            1,
            1,
        ),
        token("c-my-tag", 1, 1, 2),
        vec![template_attr(
            token("c-body", 10, 1, 11),
            token("<> <span>A</span> <span>B</span> </>", 18, 1, 19),
        )],
        true,
    )))]);

    assert_eq!(result, expected);
}

#[test]
fn test_c_attr_template_fragment_with_whitespace() {
    // Whitespace around fragment delimiters
    // <c-my-tag c-body=" <>Hello</> " />
    // 0         1         2         3
    // 0123456789012345678901234567890123
    let input = r#"<c-my-tag c-body=" <>Hello</> " />"#;
    let result = parse_template(input, None, None).unwrap();

    let expected = template(vec![node_elem(self_closing_node(start_tag(
        token(
            r#"<c-my-tag c-body=" <>Hello</> " />"#,
            0,
            1,
            1,
        ),
        token("c-my-tag", 1, 1, 2),
        vec![template_attr(
            token("c-body", 10, 1, 11),
            token(" <>Hello</> ", 18, 1, 19),
        )],
        true,
    )))]);

    assert_eq!(result, expected);
}

// --- Tightened template detection: things that should NOT be templates ---

#[test]
fn test_c_attr_not_template_space_after_lt() {
    // "< THIS IS TEXT >" - space after < means not a template, treated as Expression
    // which fails because < is not valid Python
    let input = r#"<c-my-tag c-x="< THIS IS TEXT >" />"#;
    assert_parse_error(input, "error");
}

#[test]
fn test_c_attr_not_template_double_angle() {
    // "<< lol >>" - second char is <, not alpha, so not a template
    let input = r#"<c-my-tag c-x="<< lol >>" />"#;
    assert_parse_error(input, "error");
}

#[test]
fn test_c_attr_not_template_spaced_angles() {
    // "< > </ >" - space between < and >, so not a template
    let input = r#"<c-my-tag c-x="< > </ >" />"#;
    assert_parse_error(input, "error");
}

// --- Content around nested templates ---

#[test]
fn test_c_attr_template_with_text_before() {
    // Text before a template tag: doesn't start with < after trim, so it's Expression
    // and will fail because it's not valid Python
    let input = r#"<c-my-tag c-body="hello <span>A</span>" />"#;
    assert_parse_error(input, "error");
}

#[test]
fn test_c_attr_template_with_text_after() {
    // Text after closing tag: doesn't end with > after trim, so Expression
    let input = r#"<c-my-tag c-body="<span>A</span> world" />"#;
    assert_parse_error(input, "error");
}

// --- Multiple root normal tags ---

// --- Multiple root tags in nested templates ---

#[test]
fn test_c_attr_template_multiple_root_tags() {
    // Multiple root tags in nested template
    // <c-my-tag c-body="<span>A</span><span>B</span>" />
    // 0         1         2         3         4
    // 01234567890123456789012345678901234567890123456789
    let input = r#"<c-my-tag c-body="<span>A</span><span>B</span>" />"#;
    let result = parse_template(input, None, None).unwrap();

    let expected = template(vec![node_elem(self_closing_node(start_tag(
        token(
            r#"<c-my-tag c-body="<span>A</span><span>B</span>" />"#,
            0,
            1,
            1,
        ),
        token("c-my-tag", 1, 1, 2),
        vec![template_attr(
            token("c-body", 10, 1, 11),
            token("<span>A</span><span>B</span>", 18, 1, 19),
        )],
        true,
    )))]);

    assert_eq!(result, expected);
}

#[test]
fn test_c_attr_template_different_root_tags() {
    // Different root tags in nested template
    // <c-my-tag c-body="<span>A</span><div>B</div>" />
    // 0         1         2         3         4
    // 012345678901234567890123456789012345678901234567
    let input = r#"<c-my-tag c-body="<span>A</span><div>B</div>" />"#;
    let result = parse_template(input, None, None).unwrap();

    let expected = template(vec![node_elem(self_closing_node(start_tag(
        token(
            r#"<c-my-tag c-body="<span>A</span><div>B</div>" />"#,
            0,
            1,
            1,
        ),
        token("c-my-tag", 1, 1, 2),
        vec![template_attr(
            token("c-body", 10, 1, 11),
            token("<span>A</span><div>B</div>", 18, 1, 19),
        )],
        true,
    )))]);

    assert_eq!(result, expected);
}

#[test]
fn test_c_attr_template_single_tag_with_whitespace() {
    // Single tag with whitespace around it should be OK
    // <c-my-tag c-body=" <span>A</span> " />
    // 0         1         2         3
    // 01234567890123456789012345678901234567
    let input = r#"<c-my-tag c-body=" <span>A</span> " />"#;
    let result = parse_template(input, None, None).unwrap();

    let expected = template(vec![node_elem(self_closing_node(start_tag(
        token(
            r#"<c-my-tag c-body=" <span>A</span> " />"#,
            0,
            1,
            1,
        ),
        token("c-my-tag", 1, 1, 2),
        vec![template_attr(
            token("c-body", 10, 1, 11),
            token(" <span>A</span> ", 18, 1, 19),
        )],
        true,
    )))]);

    assert_eq!(result, expected);
}

#[test]
fn test_c_attr_template_single_tag_with_text_before() {
    // Text before a tag: doesn't start with < after trim, so Expression (and likely fails)
    let input = r#"<c-my-tag c-body="hello <span>A</span>" />"#;
    assert_parse_error(input, "error");
}

// --- c-* component tags in nested templates ---

#[test]
fn test_c_attr_template_single_component() {
    // <c-my-tag c-body="<c-btn>Click</c-btn>" />
    // 0         1         2         3         4
    // 01234567890123456789012345678901234567890
    let input = r#"<c-my-tag c-body="<c-btn>Click</c-btn>" />"#;
    let result = parse_template(input, None, None).unwrap();

    let expected = template(vec![node_elem(self_closing_node(start_tag(
        token(
            r#"<c-my-tag c-body="<c-btn>Click</c-btn>" />"#,
            0,
            1,
            1,
        ),
        token("c-my-tag", 1, 1, 2),
        vec![template_attr(
            token("c-body", 10, 1, 11),
            token("<c-btn>Click</c-btn>", 18, 1, 19),
        )],
        true,
    )))]);

    assert_eq!(result, expected);
}

#[test]
fn test_c_attr_template_multiple_components() {
    // Multiple top-level components
    // <c-my-tag c-body="<c-a>A</c-a><c-b>B</c-b>" />
    // 0         1         2         3         4
    // 0123456789012345678901234567890123456789012345
    let input = r#"<c-my-tag c-body="<c-a>A</c-a><c-b>B</c-b>" />"#;
    let result = parse_template(input, None, None).unwrap();

    let expected = template(vec![node_elem(self_closing_node(start_tag(
        token(
            r#"<c-my-tag c-body="<c-a>A</c-a><c-b>B</c-b>" />"#,
            0,
            1,
            1,
        ),
        token("c-my-tag", 1, 1, 2),
        vec![template_attr(
            token("c-body", 10, 1, 11),
            token("<c-a>A</c-a><c-b>B</c-b>", 18, 1, 19),
        )],
        true,
    )))]);

    assert_eq!(result, expected);
}

#[test]
fn test_c_attr_template_component_with_whitespace() {
    // Single component with whitespace should be OK
    // <c-my-tag c-body=" <c-btn>Click</c-btn> " />
    // 0         1         2         3         4
    // 01234567890123456789012345678901234567890123
    let input = r#"<c-my-tag c-body=" <c-btn>Click</c-btn> " />"#;
    let result = parse_template(input, None, None).unwrap();

    let expected = template(vec![node_elem(self_closing_node(start_tag(
        token(
            r#"<c-my-tag c-body=" <c-btn>Click</c-btn> " />"#,
            0,
            1,
            1,
        ),
        token("c-my-tag", 1, 1, 2),
        vec![template_attr(
            token("c-body", 10, 1, 11),
            token(" <c-btn>Click</c-btn> ", 18, 1, 19),
        )],
        true,
    )))]);

    assert_eq!(result, expected);
}

#[test]
fn test_c_attr_template_component_with_text_before() {
    // Text before component: not Template kind, fails as Expression
    let input = r#"<c-my-tag c-body="hello <c-btn>Click</c-btn>" />"#;
    assert_parse_error(input, "error");
}

// --- Self-closing tag in nested template ---

#[test]
fn test_c_attr_template_self_closing_component() {
    // Self-closing component tag in nested template
    // <c-my-tag c-body="<c-icon />" />
    // 0         1         2         3
    // 01234567890123456789012345678901
    let input = r#"<c-my-tag c-body="<c-icon />" />"#;
    let result = parse_template(input, None, None).unwrap();

    let expected = template(vec![node_elem(self_closing_node(start_tag(
        token(r#"<c-my-tag c-body="<c-icon />" />"#, 0, 1, 1),
        token("c-my-tag", 1, 1, 2),
        vec![template_attr(
            token("c-body", 10, 1, 11),
            token("<c-icon />", 18, 1, 19),
        )],
        true,
    )))]);

    assert_eq!(result, expected);
}

#[test]
fn test_c_attr_template_self_closing_html() {
    // Self-closing regular HTML tag in nested template
    // <c-my-tag c-body="<div />" />
    // 0         1         2
    // 0123456789012345678901234567
    let input = r#"<c-my-tag c-body="<div />" />"#;
    let result = parse_template(input, None, None).unwrap();

    let expected = template(vec![node_elem(self_closing_node(start_tag(
        token(r#"<c-my-tag c-body="<div />" />"#, 0, 1, 1),
        token("c-my-tag", 1, 1, 2),
        vec![template_attr(
            token("c-body", 10, 1, 11),
            token("<div />", 18, 1, 19),
        )],
        true,
    )))]);

    assert_eq!(result, expected);
}

#[test]
fn test_c_attr_template_self_closing_no_space() {
    // Self-closing with no space before />
    // <c-my-tag c-body="<br/>" />
    // 0         1         2
    // 012345678901234567890123456
    let input = r#"<c-my-tag c-body="<br/>" />"#;
    let result = parse_template(input, None, None).unwrap();

    let expected = template(vec![node_elem(self_closing_node(start_tag(
        token(r#"<c-my-tag c-body="<br/>" />"#, 0, 1, 1),
        token("c-my-tag", 1, 1, 2),
        vec![template_attr(
            token("c-body", 10, 1, 11),
            token("<br/>", 18, 1, 19),
        )],
        true,
    )))]);

    assert_eq!(result, expected);
}

#[test]
fn test_c_attr_template_self_closing_with_whitespace() {
    // Self-closing with whitespace around it
    // <c-my-tag c-body=" <c-icon /> " />
    // 0         1         2         3
    // 0123456789012345678901234567890123
    let input = r#"<c-my-tag c-body=" <c-icon /> " />"#;
    let result = parse_template(input, None, None).unwrap();

    let expected = template(vec![node_elem(self_closing_node(start_tag(
        token(r#"<c-my-tag c-body=" <c-icon /> " />"#, 0, 1, 1),
        token("c-my-tag", 1, 1, 2),
        vec![template_attr(
            token("c-body", 10, 1, 11),
            token(" <c-icon /> ", 18, 1, 19),
        )],
        true,
    )))]);

    assert_eq!(result, expected);
}

// ---- raw
#[test]
fn test_c_raw_tag() {
    // Input: <c-raw>{{ not parsed }} {% also not %} {# nor this #}</c-raw>
    //        0      7                                              53
    let input = r#"<c-raw>{{ not parsed }} {% also not %} {# nor this #}</c-raw>"#;
    let result = parse_template(input, None, None).unwrap();

    let expected = template(vec![node_elem(body_node(
        start_tag(
            token("<c-raw>", 0, 1, 1),
            token("c-raw", 1, 1, 2),
            vec![],
            false,
        ),
        end_tag(
            token("</c-raw>", 53, 1, 54),
            token("c-raw", 55, 1, 56),
        ),
        template(vec![text_elem(
            "{{ not parsed }} {% also not %} {# nor this #}",
            7,
            1,
            8,
        )]),
    ))]);

    assert_eq!(result, expected);
}

#[test]
fn test_c_raw_self_closing() {
    // c-raw as self-closing should fail (grammar has no self-closing variant for raw)
    assert_parse_error("<c-raw />", "c-raw");
}

#[test]
fn test_c_raw_with_attrs() {
    // c-raw does not allow any attributes. The grammar matches the attribute
    // (raw tags accept attrs syntactically, for error reporting), and the
    // parser rejects it via the standard attribute validation.
    assert_parse_error(
        r#"<c-raw class="foo">content</c-raw>"#,
        "Tag '<c-raw>' can only have the following attributes",
    );
}

#[test]
fn test_c_raw_nested() {
    // Nested c-raw: the first </c-raw> closes the outer one,
    // leaving a stray </c-raw> which should be an error
    assert_parse_error(
        "<c-raw>outer<c-raw>inner</c-raw></c-raw>",
        "reserved and cannot be used as a regular HTML tag",
    );
}

#[test]
fn test_c_raw_with_c_tags_inside() {
    // c-* tags inside c-raw are treated as raw text
    // Input: <c-raw><c-if cond="x">hello</c-if></c-raw>
    //        0      7                             34
    let input = r#"<c-raw><c-if cond="x">hello</c-if></c-raw>"#;
    let result = parse_template(input, None, None).unwrap();

    let expected = template(vec![node_elem(body_node(
        start_tag(
            token("<c-raw>", 0, 1, 1),
            token("c-raw", 1, 1, 2),
            vec![],
            false,
        ),
        end_tag(
            token("</c-raw>", 34, 1, 35),
            token("c-raw", 36, 1, 37),
        ),
        template(vec![text_elem(
            r#"<c-if cond="x">hello</c-if>"#,
            7,
            1,
            8,
        )]),
    ))]);

    assert_eq!(result, expected);
}
