//! HTML output: escaping text, formatting the attribute region of an
//! element, and merging its attributes.
//!
//! Escaping matches `markupsafe`: `& < > " '` become `&amp; &lt; &gt; &#34;
//! &#39;`. A value that carries trusted markup (the `__html__` protocol) is
//! written as is.

use vstd::prelude::*;

use crate::deps::{first_seen, lemma_first_seen_distinct};
use crate::text::{push_char, push_str, str_to_chars};

verus! {

/// What one character becomes in escaped HTML.
pub open spec fn escape_char(c: char) -> Seq<char> {
    if c == '&' {
        seq!['&', 'a', 'm', 'p', ';']
    } else if c == '<' {
        seq!['&', 'l', 't', ';']
    } else if c == '>' {
        seq!['&', 'g', 't', ';']
    } else if c == '"' {
        seq!['&', '#', '3', '4', ';']
    } else if c == '\'' {
        seq!['&', '#', '3', '9', ';']
    } else {
        seq![c]
    }
}

/// `s` with every HTML-significant character escaped.
pub open spec fn escape_html(s: Seq<char>) -> Seq<char>
    decreases s.len(),
{
    if s.len() == 0 {
        Seq::empty()
    } else {
        escape_html(s.drop_last()) + escape_char(s.last())
    }
}

/// Append `s` to `out`, escaping the five HTML-significant characters
/// exactly as `markupsafe` does.
pub fn escape_html_into(s: &str, out: &mut String)
    ensures
        final(out)@ == old(out)@ + escape_html(s@),
{
    let chars = str_to_chars(s);
    let mut i: usize = 0;
    while i < chars.len()
        invariant
            chars@ == s@,
            i <= chars@.len(),
            out@ == old(out)@ + escape_html(chars@.take(i as int)),
        decreases chars@.len() - i,
    {
        let c = chars[i];
        if c == '&' {
            push_str(out, "&amp;");
        } else if c == '<' {
            push_str(out, "&lt;");
        } else if c == '>' {
            push_str(out, "&gt;");
        } else if c == '"' {
            push_str(out, "&#34;");
        } else if c == '\'' {
            push_str(out, "&#39;");
        } else {
            push_char(out, c);
        }
        proof {
            reveal_strlit("&amp;");
            reveal_strlit("&lt;");
            reveal_strlit("&gt;");
            reveal_strlit("&#34;");
            reveal_strlit("&#39;");
            assert(chars@.take(i + 1).drop_last() =~= chars@.take(i as int));
            assert(out@ =~= old(out)@ + escape_html(chars@.take(i + 1)));
        }
        i = i + 1;
    }
    proof {
        assert(chars@.take(i as int) =~= chars@);
    }
}

/// A value to be written into HTML, as the host language resolved it.
#[derive(Debug, Clone, PartialEq, Eq)]
pub enum ScalarValue {
    /// Trusted markup (the value's `__html__()`), written unescaped.
    Markup(String),
    /// Any other value, as text (`str(value)`), written escaped.
    Text(String),
}

/// What a value becomes in HTML.
pub open spec fn scalar_html(v: ScalarValue) -> Seq<char> {
    match v {
        ScalarValue::Markup(h) => h@,
        ScalarValue::Text(t) => escape_html(t@),
    }
}

/// Append a value: trusted markup as is, anything else escaped.
pub fn escape_to_str_into(value: &ScalarValue, out: &mut String)
    ensures
        final(out)@ == old(out)@ + scalar_html(*value),
{
    match value {
        ScalarValue::Markup(h) => push_str(out, h.as_str()),
        ScalarValue::Text(t) => escape_html_into(t.as_str(), out),
    }
}

/// Append the value of a `{{ expr }}` interpolation: nothing for `None`,
/// otherwise the value as `escape_to_str_into` writes it.
pub fn render_value_into(value: &Option<ScalarValue>, out: &mut String)
    ensures
        final(out)@ == old(out)@ + match value {
            Some(v) => scalar_html(*v),
            None => Seq::empty(),
        },
{
    match value {
        Some(v) => escape_to_str_into(v, out),
        None => {
            proof {
                assert(old(out)@ + Seq::<char>::empty() =~= old(out)@);
            }
        },
    }
}

/// The value of one attribute.
#[derive(Debug, Clone, PartialEq, Eq)]
pub enum AttrValue {
    /// `None`: the attribute is left out.
    Absent,
    /// `True` renders the bare key, `False` leaves the attribute out.
    Flag(bool),
    /// Any other value renders `key="value"`.
    Value(ScalarValue),
}

/// What one attribute renders as, or `None` when it is left out.
pub open spec fn attr_piece(key: Seq<char>, value: AttrValue) -> Option<Seq<char>> {
    match value {
        AttrValue::Absent => None,
        AttrValue::Flag(b) => if b {
            Some(escape_html(key))
        } else {
            None
        },
        AttrValue::Value(v) => Some(
            escape_html(key) + seq!['=', '"'] + scalar_html(v) + seq!['"'],
        ),
    }
}

/// The attributes `keys[..n]`/`values[..n]` rendered and joined: each rendered
/// attribute is preceded by a space unless nothing was rendered before it.
pub open spec fn attrs_chunk(keys: Seq<Seq<char>>, values: Seq<AttrValue>, n: int) -> Seq<char>
    decreases n,
{
    if n <= 0 {
        Seq::empty()
    } else {
        let c = attrs_chunk(keys, values, n - 1);
        match attr_piece(keys[n - 1], values[n - 1]) {
            Some(p) => if c.len() > 0 {
                c + seq![' '] + p
            } else {
                p
            },
            None => c,
        }
    }
}

/// What an attribute region renders as: a single space and the joined
/// attributes, or nothing when every attribute was left out.
pub open spec fn attrs_html(keys: Seq<Seq<char>>, values: Seq<AttrValue>) -> Seq<char> {
    let c = attrs_chunk(keys, values, keys.len() as int);
    if c.len() > 0 {
        seq![' '] + c
    } else {
        Seq::empty()
    }
}

/// The views of a sequence of strings.
pub open spec fn views(v: Seq<String>) -> Seq<Seq<char>> {
    v.map_values(|s: String| s@)
}

/// Format a resolved attribute region: `None`/`False` omit the attribute,
/// `True` renders the bare key, anything else renders `key="value"` (key and
/// value escaped). The whole chunk gets a single leading space, or is empty
/// when every attribute resolved away. `values[i]` is the value of `order[i]`.
pub fn format_attrs_into(order: &Vec<String>, values: &Vec<AttrValue>, out: &mut String)
    requires
        order@.len() == values@.len(),
    ensures
        final(out)@ == old(out)@ + attrs_html(views(order@), values@),
{
    let ghost keys = views(order@);
    let mut chunk = String::new();
    let mut i: usize = 0;
    while i < order.len()
        invariant
            order@.len() == values@.len(),
            keys == views(order@),
            i <= order@.len(),
            chunk@ == attrs_chunk(keys, values@, i as int),
        decreases order@.len() - i,
    {
        let ghost c0 = chunk@;
        match &values[i] {
            AttrValue::Absent => {},
            AttrValue::Flag(b) => {
                if *b {
                    if !chunk.as_str().is_empty() {
                        push_char(&mut chunk, ' ');
                    }
                    escape_html_into(order[i].as_str(), &mut chunk);
                }
            },
            AttrValue::Value(v) => {
                if !chunk.as_str().is_empty() {
                    push_char(&mut chunk, ' ');
                }
                escape_html_into(order[i].as_str(), &mut chunk);
                push_str(&mut chunk, "=\"");
                escape_to_str_into(v, &mut chunk);
                push_char(&mut chunk, '"');
                proof {
                    reveal_strlit("=\"");
                }
            },
        }
        proof {
            assert(keys[i as int] == order@[i as int]@);
            if c0.len() == 0 {
                assert(c0 =~= Seq::<char>::empty());
            }
            assert(chunk@ =~= attrs_chunk(keys, values@, i + 1));
        }
        i = i + 1;
    }
    if !chunk.as_str().is_empty() {
        push_char(out, ' ');
        push_str(out, chunk.as_str());
        proof {
            assert(old(out)@.push(' ') + chunk@ =~= old(out)@ + (seq![' '] + chunk@));
        }
    } else {
        proof {
            assert(old(out)@ + Seq::<char>::empty() =~= old(out)@);
        }
    }
}

/// The value of the last of `keys` equal to `k` (`Absent` when none is).
pub open spec fn last_value_for(keys: Seq<Seq<char>>, values: Seq<AttrValue>, k: Seq<char>) -> AttrValue
    decreases keys.len(),
{
    if keys.len() == 0 || values.len() == 0 {
        AttrValue::Absent
    } else if keys.last() == k {
        values.last()
    } else {
        last_value_for(keys.drop_last(), values.drop_last(), k)
    }
}

fn copy_scalar(v: &ScalarValue) -> (r: ScalarValue)
    ensures
        r == *v,
{
    match v {
        ScalarValue::Markup(h) => ScalarValue::Markup(h.clone()),
        ScalarValue::Text(t) => ScalarValue::Text(t.clone()),
    }
}

fn copy_attr_value(v: &AttrValue) -> (r: AttrValue)
    ensures
        r == *v,
{
    match v {
        AttrValue::Absent => AttrValue::Absent,
        AttrValue::Flag(b) => AttrValue::Flag(*b),
        AttrValue::Value(s) => AttrValue::Value(copy_scalar(s)),
    }
}

/// Merge an element's resolved attributes, given in source order: each key
/// once, in the order it was first seen, with the value it was given last.
pub fn merge_attrs(keys: &Vec<String>, values: &Vec<AttrValue>) -> (r: (Vec<String>, Vec<AttrValue>))
    requires
        keys@.len() == values@.len(),
    ensures
        views(r.0@) == first_seen(views(keys@)),
        r.1@.len() == r.0@.len(),
        forall|j: int|
            0 <= j < r.0@.len() ==> r.1@[j] == last_value_for(
                views(keys@),
                values@,
                #[trigger] r.0@[j]@,
            ),
{
    let ghost ks = views(keys@);
    let mut order: Vec<String> = Vec::new();
    let mut merged: Vec<AttrValue> = Vec::new();
    let mut i: usize = 0;
    while i < keys.len()
        invariant
            keys@.len() == values@.len(),
            ks == views(keys@),
            i <= keys@.len(),
            views(order@) == first_seen(ks.take(i as int)),
            merged@.len() == order@.len(),
            forall|j: int|
                0 <= j < order@.len() ==> merged@[j] == last_value_for(
                    ks.take(i as int),
                    values@.take(i as int),
                    #[trigger] order@[j]@,
                ),
        decreases keys@.len() - i,
    {
        let ghost prev_ks = ks.take(i as int);
        let ghost prev_vs = values@.take(i as int);
        let ghost k = keys@[i as int]@;
        proof {
            assert(ks.take(i + 1).drop_last() =~= prev_ks);
            assert(values@.take(i + 1).drop_last() =~= prev_vs);
            assert(ks.take(i + 1).last() == k);
            assert(values@.take(i + 1).last() == values@[i as int]);
            lemma_first_seen_distinct(prev_ks);
        }
        let mut found: usize = order.len();
        let mut j: usize = 0;
        while j < order.len() && found == order.len()
            invariant
                i < keys@.len(),
                k == keys@[i as int]@,
                j <= order@.len(),
                found == order@.len() || (found < j && order@[found as int]@ == k),
                found == order@.len() ==> forall|m: int| 0 <= m < j ==> order@[m]@ != k,
            decreases order@.len() - j,
        {
            if order[j] == keys[i] {
                found = j;
            }
            j = j + 1;
        }
        let ghost old_order = order@;
        let ghost old_merged = merged@;
        if found < order.len() {
            merged.set(found, copy_attr_value(&values[i]));
            proof {
                assert(views(old_order)[found as int] == k);
                assert(views(old_order).contains(k));
                assert forall|m: int| 0 <= m < order@.len() implies merged@[m] == last_value_for(
                    ks.take(i + 1),
                    values@.take(i + 1),
                    #[trigger] order@[m]@,
                ) by {
                    if m != found {
                        assert(views(old_order)[m] != views(old_order)[found as int]);
                    }
                }
            }
        } else {
            order.push(keys[i].clone());
            merged.push(copy_attr_value(&values[i]));
            proof {
                assert forall|m: int| 0 <= m < views(old_order).len() implies views(old_order)[m]
                    != k by {
                    assert(old_order[m]@ != k);
                }
                assert(!views(old_order).contains(k));
                assert(views(order@) =~= views(old_order).push(k));
                assert forall|m: int| 0 <= m < order@.len() implies merged@[m] == last_value_for(
                    ks.take(i + 1),
                    values@.take(i + 1),
                    #[trigger] order@[m]@,
                ) by {
                    if m < old_order.len() {
                        assert(order@[m] == old_order[m]);
                        assert(old_order[m]@ != k);
                    }
                }
            }
        }
        i = i + 1;
    }
    proof {
        assert(ks.take(i as int) =~= ks);
        assert(values@.take(i as int) =~= values@);
    }
    (order, merged)
}

// ---------------------------------------------------------------------------
// Laws of escaping
// ---------------------------------------------------------------------------

/// Escaping distributes over concatenation.
pub proof fn lemma_escape_concat(a: Seq<char>, b: Seq<char>)
    ensures
        escape_html(a + b) == escape_html(a) + escape_html(b),
    decreases b.len(),
{
    if b.len() == 0 {
        assert(a + b =~= a);
    } else {
        lemma_escape_concat(a, b.drop_last());
        assert((a + b).drop_last() =~= a + b.drop_last());
        assert(escape_html(a + b) =~= escape_html(a) + escape_html(b));
    }
}

/// Escaped text holds none of `< > " '`.
pub proof fn lemma_escape_is_safe(s: Seq<char>)
    ensures
        forall|i: int|
            0 <= i < escape_html(s).len() ==> {
                let c = #[trigger] escape_html(s)[i];
                c != '<' && c != '>' && c != '"' && c != '\''
            },
    decreases s.len(),
{
    if s.len() > 0 {
        lemma_escape_is_safe(s.drop_last());
        let e = escape_html(s.drop_last());
        let x = escape_char(s.last());
        assert(escape_html(s) == e + x);
        assert forall|i: int| 0 <= i < escape_html(s).len() implies {
            let c = #[trigger] escape_html(s)[i];
            c != '<' && c != '>' && c != '"' && c != '\''
        } by {
            if i >= e.len() {
                assert(escape_html(s)[i] == x[i - e.len()]);
            } else {
                assert(escape_html(s)[i] == e[i]);
            }
        }
    }
}

/// Text without HTML-significant characters is left unchanged.
pub proof fn lemma_escape_plain(s: Seq<char>)
    requires
        forall|i: int|
            0 <= i < s.len() ==> {
                let c = #[trigger] s[i];
                c != '&' && c != '<' && c != '>' && c != '"' && c != '\''
            },
    ensures
        escape_html(s) == s,
    decreases s.len(),
{
    if s.len() > 0 {
        assert(s.last() == s[s.len() - 1]);
        lemma_escape_plain(s.drop_last());
        assert(escape_html(s) =~= s);
    }
}

} // verus!
