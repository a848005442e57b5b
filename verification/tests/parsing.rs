// Tests of the parser's guarantees on whole templates, its error messages,
// the parse-tree helpers and the text helpers.

use citry_template_parser::ast::{Template, TemplateElement};
use citry_template_parser::error::{CompileError, ParseError};
use citry_template_parser::lang::lang::Lang;
use citry_template_parser::parser::parse_template;
use citry_template_parser::text::{
    chars_have_at, line_col_table, push_decimal, str_eq, str_to_chars, substring,
};
use citry_template_parser::utils::pest::{
    assert_rule, span_from_str, unwrap_pair, Pair, Rule, Span,
};

fn element_span(e: &TemplateElement) -> (usize, usize) {
    match e {
        TemplateElement::Text(t) => (t.start_index, t.end_index),
        TemplateElement::Expr(x) => (x.token.start_index, x.token.end_index),
        TemplateElement::Node(n) => {
            let end = match &n.end_tag {
                Some(et) => et.token.end_index,
                None => n.start_tag.token.end_index,
            };
            (n.start_tag.token.start_index, end)
        }
    }
}

/// Check that the elements of `t` cover `from..to` one after the other, and
/// that each body covers what lies between its tags; return the pieces'
/// text joined.
fn check_cover(t: &Template, src: &[char], from: usize, to: usize) -> String {
    let mut at = from;
    let mut joined = String::new();
    for e in &t.elements {
        let (s, end) = element_span(e);
        assert_eq!(s, at, "element starts where the previous one ends");
        assert!(s < end, "element is not empty");
        if let TemplateElement::Expr(x) = e {
            assert_eq!(x.expr.start_index, x.token.start_index + 2);
            assert_eq!(x.expr.end_index + 2, x.token.end_index);
        }
        if let TemplateElement::Node(n) = e {
            assert_eq!(n.start_tag.name.start_index, n.start_tag.token.start_index + 1);
            match (&n.body, &n.end_tag) {
                (Some(b), Some(et)) => {
                    assert_eq!(et.name.content, n.start_tag.name.content);
                    assert_eq!(et.name.start_index, et.token.start_index + 2);
                    check_cover(b, src, n.start_tag.token.end_index, et.token.start_index);
                }
                (None, None) => {}
                _ => panic!("a body without an end tag, or an end tag without a body"),
            }
        }
        joined.extend(&src[s..end]);
        at = end;
    }
    assert_eq!(at, to, "elements reach the end");
    joined
}

fn parse_ok(src: &str) -> Template {
    parse_template(src, None, None).expect("expected the template to parse")
}

fn parse_err(src: &str) -> ParseError {
    parse_template(src, None, None).expect_err("expected a parse error")
}

// --- what a parse covers --------------------------------------------------

#[test]
fn parsed_elements_cover_the_whole_source() {
    let sources = [
        "plain text",
        "<div class=\"a\">Hi {{ name }}!</div>\n<br>",
        "<ul>\n  <c-for each=\"i in items\"><li>{{ i }}</li></c-for>\n</ul>",
        "<c-raw><b>{{ not parsed }}</b></c-raw> tail",
        "<img src=\"x.png\"/><input disabled> <c-card c-title=\"t\" />",
        "<c-if cond=\"a\">A</c-if><c-elif cond=\"b\">B</c-elif><c-else>C</c-else>",
        "",
    ];
    for src in sources {
        let t = parse_ok(src);
        let chars: Vec<char> = src.chars().collect();
        let joined = check_cover(&t, &chars, 0, chars.len());
        assert_eq!(joined, src);
    }
}

#[test]
fn plain_text_is_one_text_element() {
    let t = parse_ok("Hello, world > 3 { } a<3 and 1 < 2");
    assert_eq!(t.elements.len(), 1);
    match &t.elements[0] {
        TemplateElement::Text(tok) => {
            assert_eq!(tok.content, "Hello, world > 3 { } a<3 and 1 < 2");
            assert_eq!((tok.start_index, tok.line, tok.col), (0, 1, 1));
        }
        other => panic!("expected text, got {other:?}"),
    }
    assert!(t.used_vars.is_empty());
}

#[test]
fn empty_template_has_no_elements() {
    let t = parse_ok("");
    assert!(t.elements.is_empty());
    assert!(t.used_vars.is_empty());
}

#[test]
fn tokens_carry_line_and_column() {
    let t = parse_ok("a\nbc {{ x }}\n<p>y</p>");
    match &t.elements[1] {
        TemplateElement::Expr(x) => {
            assert_eq!(x.token.content, "{{ x }}");
            assert_eq!((x.token.start_index, x.token.line, x.token.col), (5, 2, 4));
            assert_eq!(x.used_vars.len(), 1);
            assert_eq!((x.used_vars[0].start_index, x.used_vars[0].line, x.used_vars[0].col), (8, 2, 7));
        }
        other => panic!("expected an interpolation, got {other:?}"),
    }
    match &t.elements[3] {
        TemplateElement::Node(n) => {
            assert_eq!((n.start_tag.token.line, n.start_tag.token.col), (3, 1));
        }
        other => panic!("expected a node, got {other:?}"),
    }
    assert_eq!(t.used_vars.len(), 1);
    assert_eq!(t.used_vars[0].content, "x");
}

#[test]
fn loop_variables_are_introduced_not_used() {
    let t = parse_ok("<c-for each=\"item in items\">{{ item }} {{ other }}</c-for>");
    match &t.elements[0] {
        TemplateElement::Node(n) => {
            let introduced: Vec<&str> = n.introduced_vars.iter().map(|v| v.content.as_str()).collect();
            let used: Vec<&str> = n.used_vars.iter().map(|v| v.content.as_str()).collect();
            assert_eq!(introduced, vec!["item"]);
            assert_eq!(used, vec!["items", "other"]);
        }
        other => panic!("expected a node, got {other:?}"),
    }
}

// --- errors ---------------------------------------------------------------

#[test]
fn unclosed_interpolation_is_an_error() {
    let e = parse_err("ab {{ x");
    assert_eq!(
        e.message,
        "Parse error at line 1, column 4: unclosed interpolation: '{{' without '}}'"
    );
    assert_eq!((e.start_index, e.end_index), (3, 3));
}

#[test]
fn unclosed_tag_is_an_error() {
    let e = parse_err("<div>text");
    assert_eq!(e.message, "Parse error at line 1, column 1: unclosed tag <div>: parse error");
}

#[test]
fn mismatched_tags_are_an_error() {
    let e = parse_err("<div>\n  <span>x</div>");
    assert_eq!(
        e.message,
        "Parse error at line 2, column 10: Mismatched tags: expected </span> but found </div>"
    );
}

#[test]
fn stray_closing_tag_is_an_error() {
    let e = parse_err("text</p>");
    assert_eq!(e.message, "Parse error at line 1, column 5: unexpected closing tag </p>");
    let e = parse_err("</c-raw>");
    assert_eq!(
        e.message,
        "Parse error at line 1, column 1: Tag 'c-raw' is reserved and cannot be used as a regular HTML tag"
    );
}

#[test]
fn invalid_expression_is_an_error() {
    let e = parse_err("{{ a + }}");
    assert!(e.message.starts_with("Parse error at line 1, column 3: invalid expression: "), "{}", e.message);
    let e = parse_err("<c-for each=\"in items\"></c-for>");
    assert!(e.message.contains("invalid for-loop expression: "), "{}", e.message);
}

#[test]
fn origin_is_named_in_the_message() {
    let e = parse_template("{{ x", None, Some("card.html")).unwrap_err();
    assert_eq!(
        e.message,
        "Parse error at line 1, column 1: unclosed interpolation: '{{' without '}}' (in card.html)"
    );
}

#[test]
fn expressions_of_an_unavailable_language_are_rejected() {
    assert!(parse_template("plain", Some(Lang::Go), None).is_ok());
    let e = parse_template("{{ x }}", Some(Lang::Go), None).unwrap_err();
    assert!(e.message.contains("Go expression parsing is not yet implemented"), "{}", e.message);
}

#[test]
fn error_messages_are_returned_by_message() {
    let e = parse_err("{{");
    assert_eq!(e.message(), e.message);
    assert_eq!(CompileError::Syntax("s".to_string()).message(), "s");
    assert_eq!(CompileError::Generic("g".to_string()).message(), "g");
}

// --- parse-tree helpers ---------------------------------------------------

fn pair<'i>(rule: Rule, input: &'i str, start: usize, end: usize, inner: Vec<Pair<'i>>) -> Pair<'i> {
    Pair { rule, span: Span { input, start, end }, inner }
}

#[test]
fn span_from_str_covers_the_input_in_bytes() {
    let s = span_from_str("héllo");
    assert_eq!((s.start, s.end), (0, 6));
    assert_eq!(span_from_str("hello").end, 5);
    assert_eq!(s.input, "héllo");
    let e = span_from_str("");
    assert_eq!((e.start, e.end), (0, 0));
}

#[test]
fn parse_error_from_span_keeps_its_bounds() {
    let e = ParseError::from_span(Span { input: "abc", start: 1, end: 2 }, "bad".to_string());
    assert_eq!(e, ParseError { message: "bad".to_string(), start_index: 1, end_index: 2 });
}

#[test]
fn assert_rule_accepts_only_the_expected_rule() {
    let p = pair(Rule::Node, "<a></a>", 0, 7, vec![]);
    assert!(assert_rule(&p, Rule::Node).is_ok());
    let e = assert_rule(&p, Rule::Text).unwrap_err();
    assert_eq!(e.message, "expected a pair Text, found a pair Node");
    assert_eq!((e.start_index, e.end_index), (0, 7));
}

#[test]
fn unwrap_pair_returns_the_first_inner_pair() {
    let input = "<a>x</a>";
    let outer = pair(
        Rule::Node,
        input,
        0,
        8,
        vec![pair(Rule::StartTag, input, 0, 3, vec![]), pair(Rule::EndTag, input, 4, 8, vec![])],
    );
    let inner = unwrap_pair(outer, Rule::StartTag).unwrap();
    assert_eq!(inner, pair(Rule::StartTag, input, 0, 3, vec![]));
}

#[test]
fn unwrap_pair_reports_a_missing_or_wrong_inner_pair() {
    let input = "text";
    let empty = pair(Rule::Template, input, 0, 4, vec![]);
    let e = unwrap_pair(empty, Rule::Text).unwrap_err();
    assert_eq!(e.message, "pair Template should contain a pair Text");
    assert_eq!((e.start_index, e.end_index), (0, 4));

    let wrong = pair(Rule::Template, input, 0, 4, vec![pair(Rule::Interpolation, input, 1, 3, vec![])]);
    let e = unwrap_pair(wrong, Rule::Text).unwrap_err();
    assert_eq!(e.message, "expected a pair Text, found a pair Interpolation");
    assert_eq!((e.start_index, e.end_index), (1, 3));
}

// --- text helpers ---------------------------------------------------------

#[test]
fn decimal_digits() {
    let mut s = String::from("n=");
    push_decimal(&mut s, 0);
    assert_eq!(s, "n=0");
    let mut s = String::new();
    push_decimal(&mut s, 1234509);
    assert_eq!(s, "1234509");
}

#[test]
fn line_and_column_of_every_index() {
    let chars = str_to_chars("ab\nc\n");
    let (lines, cols) = line_col_table(&chars);
    assert_eq!(lines, vec![1, 1, 1, 2, 2, 3]);
    assert_eq!(cols, vec![1, 2, 3, 1, 2, 1]);
}

#[test]
fn character_helpers() {
    let chars = str_to_chars("héllo wörld");
    assert_eq!(chars.len(), 11);
    assert_eq!(substring(&chars, 6, 11), "wörld");
    assert_eq!(substring(&chars, 3, 3), "");
    assert!(chars_have_at(&chars, 1, "éll"));
    assert!(!chars_have_at(&chars, 1, "ell"));
    assert!(!chars_have_at(&chars, 9, "ldx"));
    assert!(str_eq("abc", "abc"));
    assert!(!str_eq("abc", "abd"));
    assert!(!str_eq("ab", "abc"));
}

#[test]
fn every_parse_error_names_where_it_stands() {
    let sources = [
        "a\n  {{ x",
        "<div>\n<p>x</div>",
        "x\ny</p>",
        "<div c-if=\"(\">x</div>",
        "<c-raw a=\"1\">x</c-raw>",
        "<p class=\"x>y</p>",
        "<p></p  x>",
    ];
    for src in sources {
        let e = parse_template(src, None, Some("t.html")).expect_err(src);
        assert_eq!(e.start_index, e.end_index, "{src}");
        let chars: Vec<char> = src.chars().collect();
        assert!(e.start_index <= chars.len(), "{src}");
        let (lines, cols) = line_col_table(&chars);
        let prefix = format!(
            "Parse error at line {}, column {}: ",
            lines[e.start_index], cols[e.start_index]
        );
        assert!(e.message.starts_with(&prefix), "{src}: {}", e.message);
        assert!(e.message.ends_with(" (in t.html)"), "{src}: {}", e.message);
    }
}

#[test]
fn text_with_name_interpolations_parses_to_text_and_interpolations() {
    let src = "Hello {{ name }}, you have {{count}} new {{\titems\n}}!";
    let t = parse_ok(src);
    let kinds: Vec<&str> = t
        .elements
        .iter()
        .map(|e| match e {
            TemplateElement::Text(_) => "text",
            TemplateElement::Expr(_) => "expr",
            TemplateElement::Node(_) => "node",
        })
        .collect();
    assert_eq!(kinds, vec!["text", "expr", "text", "expr", "text", "expr", "text"]);
    let names: Vec<&str> = t.used_vars.iter().map(|v| v.content.as_str()).collect();
    assert_eq!(names, vec!["name", "count", "items"]);
}

fn is_name(s: &str) -> bool {
    let keywords = [
        "and", "or", "if", "else", "is", "not", "in", "for", "True", "False", "None", "lambda",
        "await", "yield", "def", "class", "return", "import", "from", "as", "assert", "async",
        "break", "continue", "del", "elif", "except", "finally", "global", "nonlocal", "pass",
        "raise", "try", "while", "with",
    ];
    let mut chars = s.chars();
    match chars.next() {
        Some(c) if c.is_ascii_alphabetic() || c == '_' || (c as u32) > 0x7f => {}
        _ => return false,
    }
    chars.all(|c| c.is_ascii_alphanumeric() || c == '_' || (c as u32) > 0x7f) && !keywords.contains(&s)
}

fn check_names(t: &Template) {
    for v in &t.used_vars {
        assert!(is_name(&v.content), "{}", v.content);
    }
    for e in &t.elements {
        match e {
            TemplateElement::Text(_) => {}
            TemplateElement::Expr(x) => {
                for v in &x.used_vars {
                    assert!(is_name(&v.content), "{}", v.content);
                }
            }
            TemplateElement::Node(n) => {
                for v in n.used_vars.iter().chain(n.introduced_vars.iter()) {
                    assert!(is_name(&v.content), "{}", v.content);
                }
                for a in &n.start_tag.attrs {
                    for v in &a.used_vars {
                        assert!(is_name(&v.content), "{}", v.content);
                    }
                }
                if let Some(b) = &n.body {
                    check_names(b);
                }
            }
        }
    }
}

#[test]
fn every_reported_variable_is_a_name() {
    let sources = [
        "{{ a.b(c, key=d)[e] if f else None }}",
        "<c-for each=\"(k, v) in items.pairs()\">{{ k }}={{ v + offset }}</c-for>",
        "<div c-title=\"<span>{{ title }}</span>\" c-id=\"ident\">{{ [x for x in xs if x > lim] }}</div>",
        "<c-if cond=\"not done and (n := count) > 0\">{{ n }}</c-if>",
    ];
    for src in sources {
        check_names(&parse_ok(src));
    }
}

#[test]
fn operator_expressions_in_markup_parse() {
    let t = parse_ok("<p c-title=\"a + b\">{{ price * qty }}</p>{{ x - y }}");
    let used: Vec<&str> = t.used_vars.iter().map(|v| v.content.as_str()).collect();
    assert_eq!(used, vec!["a", "b", "price", "qty", "x", "y"]);
    let t = parse_ok("<c-if cond=\"n > m\">big</c-if>");
    let used: Vec<&str> = t.used_vars.iter().map(|v| v.content.as_str()).collect();
    assert_eq!(used, vec!["n", "m"]);
}
