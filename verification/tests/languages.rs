// Tests of the expression languages: Python expression checking, loop
// targets and code generation, and the languages that are not available.

use citry_template_parser::ast::Token;
use citry_template_parser::lang::go::GoLang;
use citry_template_parser::lang::js::JsLang;
use citry_template_parser::lang::lang::{Lang, LangImpl, LangSpecArgument, LangSpecStruct};
use citry_template_parser::lang::php::PhpLang;
use citry_template_parser::lang::python::PythonLang;
use citry_template_parser::lang::rust::RustLang;

fn names(tokens: &[Token]) -> Vec<String> {
    tokens.iter().map(|t| t.content.clone()).collect()
}

fn used(src: &str) -> Vec<String> {
    names(&PythonLang.parse_expression(src).expect("expected a valid expression").used_vars)
}

fn is_err(src: &str) -> bool {
    PythonLang.parse_expression(src).is_err()
}

// --- Python expressions ---------------------------------------------------

#[test]
fn python_names_are_reported_once_in_order() {
    assert_eq!(used("a + b.c * a"), vec!["a", "b"]);
    assert_eq!(used("name"), vec!["name"]);
    assert_eq!(used("f(x)[y]"), vec!["f", "x", "y"]);
}

#[test]
fn python_tokens_point_into_the_expression() {
    let res = PythonLang.parse_expression("  foo +\n bar").unwrap();
    let vars = res.used_vars;
    assert_eq!(vars.len(), 2);
    assert_eq!(vars[0].content, "foo");
    assert_eq!((vars[0].start_index, vars[0].end_index), (2, 5));
    assert_eq!((vars[0].line, vars[0].col), (1, 3));
    assert_eq!(vars[1].content, "bar");
    assert_eq!((vars[1].start_index, vars[1].end_index), (9, 12));
    assert_eq!((vars[1].line, vars[1].col), (2, 2));
}

#[test]
fn python_constants_keywords_and_attributes_are_not_variables() {
    assert_eq!(used("x if True else None"), vec!["x"]);
    assert_eq!(used("not a and b or c"), vec!["a", "b", "c"]);
    assert_eq!(used("obj.attr.other"), vec!["obj"]);
    assert_eq!(used("'text' + 1"), Vec::<String>::new());
    assert_eq!(used("a is not b"), vec!["a", "b"]);
    assert_eq!(used("a not in b"), vec!["a", "b"]);
}

#[test]
fn python_keyword_arguments_are_not_variables() {
    assert_eq!(used("f(a, key=b)"), vec!["f", "a", "b"]);
    assert_eq!(used("dict(x=1, y=z)"), vec!["dict", "z"]);
}

#[test]
fn python_comprehension_targets_are_not_variables() {
    assert_eq!(used("[i * k for i in items]"), vec!["k", "items"]);
    assert_eq!(used("{k: v for k, v in pairs}"), vec!["pairs"]);
}

#[test]
fn python_walrus_targets_are_assigned() {
    let res = PythonLang.parse_expression("(total := a + b) * total").unwrap();
    assert_eq!(names(&res.assigned_vars), vec!["total"]);
    assert_eq!(names(&res.used_vars), vec!["a", "b"]);
}

#[test]
fn python_comments_are_collected() {
    let res = PythonLang.parse_expression("value  # the value").unwrap();
    assert_eq!(names(&res.used_vars), vec!["value"]);
    assert_eq!(res.comments.len(), 1);
    assert_eq!(res.comments[0].token.content, "# the value");
    assert_eq!(res.comments[0].token.start_index, 7);
    assert_eq!(res.comments[0].value.content, " the value");
}

#[test]
fn python_invalid_expressions_are_rejected() {
    assert!(is_err(""));
    assert!(is_err("a +"));
    assert!(is_err("(a"));
    assert!(is_err("a)"));
    assert!(is_err("x = 1"));
    assert!(is_err("lambda x: x"));
    assert!(is_err("import os"));
    assert!(is_err("a b"));
    assert!(is_err("'unterminated"));
    assert!(is_err("a $ b"));
}

#[test]
fn python_error_names_line_and_column() {
    let err = PythonLang.parse_expression("a +\n  )").unwrap_err();
    assert!(err.starts_with("Python expression error at line 2, column 3: "), "{err}");
}

#[test]
fn python_forloop_targets() {
    let vars = PythonLang.parse_forloop_expression("item in items").unwrap();
    assert_eq!(names(&vars), vec!["item"]);
    assert_eq!((vars[0].start_index, vars[0].end_index), (0, 4));
    let vars = PythonLang.parse_forloop_expression("key, (a, b) in data.items()").unwrap();
    assert_eq!(names(&vars), vec!["key", "a", "b"]);
}

#[test]
fn python_forloop_needs_a_target_and_an_iterable() {
    assert!(PythonLang.parse_forloop_expression("in items").is_err());
    assert!(PythonLang.parse_forloop_expression("item").is_err());
    assert!(PythonLang.parse_forloop_expression("item in").is_err());
    assert!(PythonLang.parse_forloop_expression("1 in items").is_err());
    assert!(PythonLang.parse_forloop_expression("a.b in items").is_err());
}

// --- Python code generation -----------------------------------------------

#[test]
fn python_compile_writes_one_line_per_item() {
    let args = vec![
        LangSpecArgument::UnsafeString("<p>\"hi\"\n</p>".to_string()),
        LangSpecArgument::Struct(LangSpecStruct {
            name: "ExprNode".to_string(),
            arguments: vec![
                LangSpecArgument::Variable("source".to_string()),
                LangSpecArgument::Tuple(vec![LangSpecArgument::Int(3), LangSpecArgument::Int(12)]),
                LangSpecArgument::SafeString("x".to_string()),
                LangSpecArgument::List(vec![LangSpecArgument::Bool(true), LangSpecArgument::Bool(false)]),
            ],
        }),
    ];
    let code = PythonLang.compile(args).unwrap();
    let expected = "def generate_template():\n    body = [\n        \"\"\"<p>\\\"hi\\\"\n</p>\"\"\",\n        ExprNode(source, (3, 12), \"x\", [True, False]),\n    ]\n    return body\n";
    assert_eq!(code, expected);
}

#[test]
fn python_compile_of_a_one_element_tuple_keeps_the_comma() {
    let args = vec![LangSpecArgument::Tuple(vec![LangSpecArgument::Int(0)])];
    let code = PythonLang.compile(args).unwrap();
    assert_eq!(code, "def generate_template():\n    body = [\n        (0,),\n    ]\n    return body\n");
}

#[test]
fn python_compile_of_nothing_is_an_empty_body() {
    let code = PythonLang.compile(vec![]).unwrap();
    assert_eq!(code, "def generate_template():\n    body = [\n    ]\n    return body\n");
}

// --- languages that are not available -------------------------------------

#[test]
fn unavailable_languages_report_errors() {
    assert_eq!(
        GoLang.parse_expression("x").unwrap_err(),
        "Go expression parsing is not yet implemented. Expressions use Expr or CEL-Go syntax, not raw Go code."
    );
    assert_eq!(
        RustLang.parse_forloop_expression("x in y").unwrap_err(),
        "Rust for-loop variable extraction is not yet implemented. Expressions use CEL-Rust, fasteval, or evalexpr syntax, not raw Rust code."
    );
    assert_eq!(
        JsLang.compile(vec![]).unwrap_err(),
        "JavaScript code generation is not yet implemented"
    );
    assert_eq!(
        PhpLang.parse_forloop_expression("$x as $y").unwrap_err(),
        "PHP foreach loop variable extraction is not yet implemented"
    );
    assert_eq!(
        PhpLang.parse_expression("$x").unwrap_err(),
        "PHP expression parsing is not yet implemented"
    );
}

#[test]
fn lang_dispatch_forwards_to_the_language() {
    let py = Lang::Python.to_lang_impl();
    assert_eq!(py.lang, Lang::Python);
    assert_eq!(names(&py.parse_expression("a + b").unwrap().used_vars), vec!["a", "b"]);
    assert_eq!(
        py.compile(vec![]).unwrap(),
        PythonLang.compile(vec![]).unwrap()
    );
    for lang in [Lang::Php, Lang::Js, Lang::Go, Lang::Rust] {
        let imp = lang.to_lang_impl();
        assert!(imp.parse_expression("x").is_err());
        assert!(imp.parse_forloop_expression("x in y").is_err());
        assert!(imp.compile(vec![]).is_err());
    }
}

#[test]
fn python_name_with_whitespace_around_it_reads_that_name() {
    let res = PythonLang.parse_expression(" \t user\n ").unwrap();
    assert_eq!(res.used_vars.len(), 1);
    assert_eq!(res.used_vars[0].content, "user");
    assert_eq!((res.used_vars[0].start_index, res.used_vars[0].end_index), (3, 7));
    assert!(res.assigned_vars.is_empty());
    assert!(res.comments.is_empty());
}

#[test]
fn python_names_joined_by_operators_are_accepted() {
    for src in ["a + b", " a - b * c ", "x / y % z", "n < m", "p > q + r"] {
        assert!(PythonLang.parse_expression(src).is_ok(), "{src}");
    }
    assert_eq!(used(" total * rate - total "), vec!["total", "rate"]);
}
