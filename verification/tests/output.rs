// Tests of HTML output (escaping, attribute regions), dependency-record
// dedup and the body executor's bookkeeping.

use citry_template_parser::body::{
    classify_item, is_simple_attrs, merge_text_parts, ItemKind, Part,
};
use citry_template_parser::deps::{bench_native_collect, bench_records, dedup_first_seen, RecordKey};
use citry_template_parser::html::{
    escape_html_into, escape_to_str_into, format_attrs_into, merge_attrs, render_value_into,
    AttrValue, ScalarValue,
};

fn escape(s: &str) -> String {
    let mut out = String::new();
    escape_html_into(s, &mut out);
    out
}

fn text(s: &str) -> AttrValue {
    AttrValue::Value(ScalarValue::Text(s.to_string()))
}

fn strings(v: &[&str]) -> Vec<String> {
    v.iter().map(|s| s.to_string()).collect()
}

fn record(a: &str, b: &str, c: Option<&str>, d: Option<&str>) -> RecordKey {
    (a.to_string(), b.to_string(), c.map(|s| s.to_string()), d.map(|s| s.to_string()))
}

// --- escaping -------------------------------------------------------------

#[test]
fn escape_replaces_each_special_character() {
    assert_eq!(escape("&"), "&amp;");
    assert_eq!(escape("<"), "&lt;");
    assert_eq!(escape(">"), "&gt;");
    assert_eq!(escape("\""), "&#34;");
    assert_eq!(escape("'"), "&#39;");
}

#[test]
fn escape_of_markup() {
    assert_eq!(
        escape("<a href=\"x\">Tom & 'Jerry'</a>"),
        "&lt;a href=&#34;x&#34;&gt;Tom &amp; &#39;Jerry&#39;&lt;/a&gt;"
    );
}

#[test]
fn escape_appends_to_what_is_there() {
    let mut out = String::from("x=");
    escape_html_into("<b>", &mut out);
    assert_eq!(out, "x=&lt;b&gt;");
}

#[test]
fn escape_leaves_plain_text_alone() {
    let s = "Hello, world: 1 + 2 = 3 (ünïcödé)";
    assert_eq!(escape(s), s);
    assert_eq!(escape(""), "");
}

#[test]
fn escape_of_concatenation_is_concatenation_of_escapes() {
    let a = "a<b & \"c";
    let b = "'d'> e&";
    let joined = format!("{a}{b}");
    assert_eq!(escape(&joined), format!("{}{}", escape(a), escape(b)));
}

#[test]
fn escaped_text_holds_no_markup_character() {
    let out = escape("<script>alert('x' + \"y\") && 1 > 0</script>");
    assert!(!out.contains('<'));
    assert!(!out.contains('>'));
    assert!(!out.contains('"'));
    assert!(!out.contains('\''));
    // Every '&' starts one of the five entities.
    for (i, _) in out.match_indices('&') {
        let rest = &out[i..];
        assert!(
            rest.starts_with("&amp;")
                || rest.starts_with("&lt;")
                || rest.starts_with("&gt;")
                || rest.starts_with("&#34;")
                || rest.starts_with("&#39;")
        );
    }
}

#[test]
fn markup_value_is_written_as_is_and_text_is_escaped() {
    let mut out = String::new();
    escape_to_str_into(&ScalarValue::Markup("<b>bold</b>".to_string()), &mut out);
    escape_to_str_into(&ScalarValue::Text("<i>".to_string()), &mut out);
    assert_eq!(out, "<b>bold</b>&lt;i&gt;");
}

#[test]
fn render_value_of_none_writes_nothing() {
    let mut out = String::from("before");
    render_value_into(&None, &mut out);
    assert_eq!(out, "before");
    render_value_into(&Some(ScalarValue::Text("a&b".to_string())), &mut out);
    assert_eq!(out, "beforea&amp;b");
}

// --- attribute regions ----------------------------------------------------

#[test]
fn format_attrs_renders_each_kind_of_value() {
    let order = strings(&["id", "hidden", "disabled", "title", "data-x"]);
    let values = vec![
        text("main"),
        AttrValue::Flag(true),
        AttrValue::Flag(false),
        AttrValue::Absent,
        text("a \"b\""),
    ];
    let mut out = String::from("<div");
    format_attrs_into(&order, &values, &mut out);
    assert_eq!(out, "<div id=\"main\" hidden data-x=\"a &#34;b&#34;\"");
}

#[test]
fn format_attrs_is_empty_when_everything_resolves_away() {
    let order = strings(&["a", "b"]);
    let values = vec![AttrValue::Absent, AttrValue::Flag(false)];
    let mut out = String::from("<p");
    format_attrs_into(&order, &values, &mut out);
    assert_eq!(out, "<p");
    let mut empty = String::new();
    format_attrs_into(&vec![], &vec![], &mut empty);
    assert_eq!(empty, "");
}

#[test]
fn format_attrs_escapes_keys_and_keeps_markup_values() {
    let order = strings(&["a<b", "c"]);
    let values = vec![
        AttrValue::Flag(true),
        AttrValue::Value(ScalarValue::Markup("<em>".to_string())),
    ];
    let mut out = String::new();
    format_attrs_into(&order, &values, &mut out);
    assert_eq!(out, " a&lt;b c=\"<em>\"");
}

#[test]
fn merge_attrs_keeps_first_position_and_last_value() {
    let keys = strings(&["id", "title", "id", "role", "title"]);
    let values = vec![text("1"), text("t1"), text("2"), text("r"), AttrValue::Absent];
    let (order, merged) = merge_attrs(&keys, &values);
    assert_eq!(order, strings(&["id", "title", "role"]));
    assert_eq!(merged, vec![text("2"), AttrValue::Absent, text("r")]);
}

#[test]
fn merge_attrs_of_distinct_keys_changes_nothing() {
    let keys = strings(&["a", "b"]);
    let values = vec![AttrValue::Flag(true), text("x")];
    let (order, merged) = merge_attrs(&keys, &values);
    assert_eq!(order, keys);
    assert_eq!(merged, values);
}

// --- dependency records ---------------------------------------------------

#[test]
fn dedup_keeps_first_seen_order() {
    let records = vec![
        record("A", "1", None, None),
        record("B", "2", Some("h"), None),
        record("A", "1", None, None),
        record("C", "3", None, Some("c")),
        record("B", "2", Some("h"), None),
    ];
    let out = dedup_first_seen(records);
    assert_eq!(
        out,
        vec![
            record("A", "1", None, None),
            record("B", "2", Some("h"), None),
            record("C", "3", None, Some("c")),
        ]
    );
}

#[test]
fn dedup_tells_optional_hashes_apart() {
    let records = vec![
        record("A", "1", None, None),
        record("A", "1", Some(""), None),
        record("A", "1", None, Some("")),
        record("A", "2", None, None),
    ];
    let out = dedup_first_seen(records.clone());
    assert_eq!(out, records);
}

#[test]
fn dedup_is_idempotent() {
    let records = vec![
        record("X", "1", None, None),
        record("Y", "1", None, None),
        record("X", "1", None, None),
    ];
    let once = dedup_first_seen(records);
    let twice = dedup_first_seen(once.clone());
    assert_eq!(once, twice);
    assert!(dedup_first_seen(vec![]).is_empty());
}

// --- body parts -----------------------------------------------------------

#[test]
fn merge_text_parts_joins_runs_and_drops_empty_text() {
    let parts = vec![
        Part::Text("a".to_string()),
        Part::Text("".to_string()),
        Part::Text("b".to_string()),
        Part::Live(7),
        Part::Text("".to_string()),
        Part::Live(8),
        Part::Text("c".to_string()),
        Part::Text("d".to_string()),
    ];
    let merged = merge_text_parts(parts);
    assert_eq!(
        merged,
        vec![
            Part::Text("ab".to_string()),
            Part::Live(7),
            Part::Live(8),
            Part::Text("cd".to_string()),
        ]
    );
}

#[test]
fn merge_text_parts_of_only_empty_text_is_empty() {
    let merged = merge_text_parts(vec![Part::Text(String::new()), Part::Text(String::new())]);
    assert!(merged.is_empty());
    assert!(merge_text_parts(vec![]).is_empty());
}

#[test]
fn simple_attrs_exclude_class_style_bind_and_templates() {
    assert!(is_simple_attrs(&strings(&["id", "c-title", "role"]), &vec![false, false, false]));
    assert!(!is_simple_attrs(&strings(&["id", "class"]), &vec![false, false]));
    assert!(!is_simple_attrs(&strings(&["c-class"]), &vec![false]));
    assert!(!is_simple_attrs(&strings(&["c-style"]), &vec![false]));
    assert!(!is_simple_attrs(&strings(&["style"]), &vec![false]));
    assert!(!is_simple_attrs(&strings(&["c-bind"]), &vec![false]));
    assert!(!is_simple_attrs(&strings(&["c-slot"]), &vec![true]));
    assert!(is_simple_attrs(&vec![], &vec![]));
}

#[test]
fn classify_item_picks_the_executor_path() {
    assert_eq!(classify_item(true, false, false, false, false), ItemKind::Text);
    assert_eq!(classify_item(false, true, true, true, true), ItemKind::Expr);
    assert_eq!(classify_item(false, false, true, true, true), ItemKind::Attrs);
    assert_eq!(classify_item(false, false, false, true, true), ItemKind::Node);
    assert_eq!(classify_item(false, false, true, true, false), ItemKind::Node);
    assert_eq!(classify_item(false, false, true, false, true), ItemKind::Node);
}

#[test]
fn dedup_merge_is_associative() {
    let a = vec![record("A", "1", None, None), record("B", "1", None, None)];
    let b = vec![record("C", "1", None, None), record("A", "1", None, None)];
    let c = vec![record("B", "1", None, None), record("D", "1", None, None)];
    let cat = |x: &Vec<RecordKey>, y: &Vec<RecordKey>| {
        let mut v = x.clone();
        v.extend(y.iter().cloned());
        v
    };
    let left = dedup_first_seen(cat(&dedup_first_seen(cat(&a, &b)), &c));
    let right = dedup_first_seen(cat(&a, &dedup_first_seen(cat(&b, &c))));
    let all = dedup_first_seen(cat(&cat(&a, &b), &c));
    assert_eq!(left, right);
    assert_eq!(left, all);
    assert_eq!(
        all,
        vec![
            record("A", "1", None, None),
            record("B", "1", None, None),
            record("C", "1", None, None),
            record("D", "1", None, None),
        ]
    );
}

#[test]
fn bench_records_repeat_each_level() {
    let r = bench_records(3, 2);
    assert_eq!(r.len(), 6);
    assert_eq!(r[0], ("Cls0".to_string(), "c0".to_string(), None, None));
    assert_eq!(r[4], ("Cls1".to_string(), "c1".to_string(), None, None));
    assert_eq!(dedup_first_seen(r).len(), 3);
    assert!(bench_records(0, 5).is_empty());
    assert!(bench_records(12, 0).is_empty());
}

#[test]
fn native_collect_counts_distinct_records() {
    assert_eq!(bench_native_collect(3, 4), 3);
    assert_eq!(bench_native_collect(25, 1), 25);
    assert_eq!(bench_native_collect(7, 0), 0);
    assert_eq!(bench_native_collect(0, 3), 0);
}
