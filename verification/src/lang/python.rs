//! Python expression support: checking that a template expression is a
//! Python expression, finding the variables it reads, and generating the
//! Python source that builds a compiled template.

use vstd::prelude::*;

use crate::ast::{Comment, Token};
use crate::ast::{token_in, tokens_in};
use crate::lang::lang::{
    comments_in, LangImpl, LangSpecArgument, ParseExprResult, MAX_EXPR_LEN,
};
use crate::text::{
    chars_have_at, col_at, decimal, has_prefix, line_at, line_col_table, owned, push_char,
    push_decimal, push_str, str_to_chars, substring,
};

verus! {

/// Python language implementation
#[derive(Copy, Clone)]
pub struct PythonLang;

// ---------------------------------------------------------------------------
// Tokens
// ---------------------------------------------------------------------------

const T_NAME: u8 = 0;
const T_NUMBER: u8 = 1;
const T_STRING: u8 = 2;
const T_OP: u8 = 3;

const OP_NONE: u8 = 0;
const OP_LPAR: u8 = 1;
const OP_RPAR: u8 = 2;
const OP_LSQB: u8 = 3;
const OP_RSQB: u8 = 4;
const OP_LBRACE: u8 = 5;
const OP_RBRACE: u8 = 6;
const OP_COMMA: u8 = 7;
const OP_COLON: u8 = 8;
const OP_DOT: u8 = 9;
const OP_EQUAL: u8 = 10;
const OP_WALRUS: u8 = 11;
const OP_BIN: u8 = 12;
const OP_PLUSMINUS: u8 = 13;
const OP_TILDE: u8 = 14;
const OP_STAR: u8 = 15;

/// One lexical token of an expression: `chars[start..end]`.
struct PyTok {
    kind: u8,
    op: u8,
    start: usize,
    end: usize,
}

/// Whether every token stands inside a text of length `n`, in order.
spec fn toks_in(toks: Seq<PyTok>, n: int) -> bool {
    &&& forall|i: int| 0 <= i < toks.len() ==> #[trigger] toks[i].start < toks[i].end <= n
}

/// Whether the comment ranges stand inside a text of length `n`.
spec fn ranges_in(rs: Seq<(usize, usize)>, n: int) -> bool {
    forall|i: int| 0 <= i < rs.len() ==> #[trigger] rs[i].0 <= rs[i].1 <= n
}

/// Whether `c` may start a Python name.
pub open spec fn name_start_char(c: char) -> bool {
    ('a' <= c && c <= 'z') || ('A' <= c && c <= 'Z') || c == '_' || c > '\x7f'
}

/// Whether `c` may stand in a Python name.
pub open spec fn name_char(c: char) -> bool {
    name_start_char(c) || ('0' <= c && c <= '9')
}

/// Whether `w` is a Python keyword.
pub open spec fn python_keyword(w: Seq<char>) -> bool {
    w == seq!['a', 'n', 'd']
        || w == seq!['o', 'r']
        || w == seq!['i', 'f']
        || w == seq!['e', 'l', 's', 'e']
        || w == seq!['i', 's']
        || w == seq!['n', 'o', 't']
        || w == seq!['i', 'n']
        || w == seq!['f', 'o', 'r']
        || w == seq!['T', 'r', 'u', 'e']
        || w == seq!['F', 'a', 'l', 's', 'e']
        || w == seq!['N', 'o', 'n', 'e']
        || w == seq!['l', 'a', 'm', 'b', 'd', 'a']
        || w == seq!['a', 'w', 'a', 'i', 't']
        || w == seq!['y', 'i', 'e', 'l', 'd']
        || w == seq!['d', 'e', 'f']
        || w == seq!['c', 'l', 'a', 's', 's']
        || w == seq!['r', 'e', 't', 'u', 'r', 'n']
        || w == seq!['i', 'm', 'p', 'o', 'r', 't']
        || w == seq!['f', 'r', 'o', 'm']
        || w == seq!['a', 's']
        || w == seq!['a', 's', 's', 'e', 'r', 't']
        || w == seq!['a', 's', 'y', 'n', 'c']
        || w == seq!['b', 'r', 'e', 'a', 'k']
        || w == seq!['c', 'o', 'n', 't', 'i', 'n', 'u', 'e']
        || w == seq!['d', 'e', 'l']
        || w == seq!['e', 'l', 'i', 'f']
        || w == seq!['e', 'x', 'c', 'e', 'p', 't']
        || w == seq!['f', 'i', 'n', 'a', 'l', 'l', 'y']
        || w == seq!['g', 'l', 'o', 'b', 'a', 'l']
        || w == seq!['n', 'o', 'n', 'l', 'o', 'c', 'a', 'l']
        || w == seq!['p', 'a', 's', 's']
        || w == seq!['r', 'a', 'i', 's', 'e']
        || w == seq!['t', 'r', 'y']
        || w == seq!['w', 'h', 'i', 'l', 'e']
        || w == seq!['w', 'i', 't', 'h']
}

/// Whether `s` is a single Python name that is not a keyword, such as `user`.
pub open spec fn is_plain_name(s: Seq<char>) -> bool {
    &&& s.len() > 0
    &&& name_start_char(s[0])
    &&& forall|i: int| 0 <= i < s.len() ==> name_char(#[trigger] s[i])
    &&& !python_keyword(s)
}

/// Whether `c` is whitespace between tokens.
pub open spec fn space_char(c: char) -> bool {
    c == ' ' || c == '\t' || c == '\n' || c == '\r' || c == '\x0c'
}

/// Whether `s` is a plain name at `a..b` with only whitespace around it,
/// such as ` user `.
pub open spec fn padded_name(s: Seq<char>, a: int, b: int) -> bool {
    &&& 0 <= a < b <= s.len()
    &&& forall|k: int| 0 <= k < a ==> space_char(#[trigger] s[k])
    &&& forall|k: int| b <= k < s.len() ==> space_char(#[trigger] s[k])
    &&& is_plain_name(s.subrange(a, b))
}

/// The characters of a name padded with whitespace.
proof fn lemma_padded_chars(s: Seq<char>, a: int, b: int)
    requires
        padded_name(s, a, b),
    ensures
        forall|k: int| a <= k < b ==> name_char(#[trigger] s[k]) && !space_char(s[k]),
        name_start_char(s[a]),
{
    assert forall|k: int| a <= k < b implies name_char(#[trigger] s[k]) && !space_char(s[k]) by {
        assert(s.subrange(a, b)[k - a] == s[k]);
    }
    assert(s.subrange(a, b)[0] == s[a]);
}

/// A source holds a padded name in at most one place.
proof fn lemma_padded_unique(s: Seq<char>, a: int, b: int, c: int, d: int)
    requires
        padded_name(s, a, b),
        padded_name(s, c, d),
    ensures
        a == c && b == d,
{
    lemma_padded_chars(s, a, b);
    lemma_padded_chars(s, c, d);
    if a < c {
        assert(space_char(s[a]));
    } else if c < a {
        assert(space_char(s[c]));
    }
    if b < d {
        assert(space_char(s[b]));
    } else if d < b {
        assert(space_char(s[d]));
    }
}

/// Whether `s` is `target in iterable` with two plain names, the target
/// ending at `t`.
pub open spec fn loop_split(s: Seq<char>, t: int) -> bool {
    &&& 0 < t
    &&& t + 4 < s.len()
    &&& is_plain_name(s.subrange(0, t))
    &&& s.subrange(t, t + 4) == seq![' ', 'i', 'n', ' ']
    &&& is_plain_name(s.subrange(t + 4, s.len() as int))
}

/// The characters of a source split as `target in iterable` at `t`.
proof fn lemma_loop_split_chars(s: Seq<char>, t: int)
    requires
        loop_split(s, t),
    ensures
        forall|k: int| 0 <= k < t ==> name_char(#[trigger] s[k]),
        forall|k: int| t + 4 <= k < s.len() ==> name_char(#[trigger] s[k]),
        name_start_char(s[0]),
        name_start_char(s[t + 4]),
        s[t] == ' ',
        s[t + 1] == 'i',
        s[t + 2] == 'n',
        s[t + 3] == ' ',
        s.subrange(t + 1, t + 3) == seq!['i', 'n'],
{
    assert forall|k: int| 0 <= k < t implies name_char(#[trigger] s[k]) by {
        assert(s.subrange(0, t)[k] == s[k]);
    }
    assert forall|k: int| t + 4 <= k < s.len() implies name_char(#[trigger] s[k]) by {
        assert(s.subrange(t + 4, s.len() as int)[k - (t + 4)] == s[k]);
    }
    assert(s.subrange(0, t)[0] == s[0]);
    assert(s.subrange(t + 4, s.len() as int)[0] == s[t + 4]);
    assert(s.subrange(t, t + 4)[0] == s[t]);
    assert(s.subrange(t, t + 4)[1] == s[t + 1]);
    assert(s.subrange(t, t + 4)[2] == s[t + 2]);
    assert(s.subrange(t, t + 4)[3] == s[t + 3]);
    assert(s.subrange(t + 1, t + 3) =~= seq!['i', 'n']);
}

/// A source splits as `target in iterable` in at most one place.
proof fn lemma_loop_split_unique(s: Seq<char>, t: int, u: int)
    requires
        loop_split(s, t),
        loop_split(s, u),
    ensures
        t == u,
{
    lemma_loop_split_chars(s, t);
    lemma_loop_split_chars(s, u);
    if t < u {
        assert(name_char(s[t]));
    } else if u < t {
        assert(name_char(s[u]));
    }
}

/// Whether `c` is an operator of one character that joins two operands:
/// `+ - * / % < >`.
pub open spec fn binop_char(c: char) -> bool {
    c == '+' || c == '-' || c == '*' || c == '/' || c == '%' || c == '<' || c == '>'
}

/// Where the `k`-th name of a chain starts: at `lo` for the first, three
/// characters past the end of the name before it for the others.
pub open spec fn chain_start(lo: int, ends: Seq<int>, k: int) -> int {
    if k == 0 {
        lo
    } else {
        ends[k - 1] + 3
    }
}

/// Whether `s` is plain names joined by operators of one character, with
/// one space on either side of each operator and only whitespace around the
/// whole, such as ` a + b * c `: the first name starts at `lo`, and the
/// names end at `ends`.
pub open spec fn chain_at(s: Seq<char>, lo: int, ends: Seq<int>) -> bool {
    &&& ends.len() > 0
    &&& 0 <= lo
    &&& ends.last() <= s.len()
    &&& forall|m: int| 0 <= m < lo ==> space_char(#[trigger] s[m])
    &&& forall|m: int| ends.last() <= m < s.len() ==> space_char(#[trigger] s[m])
    &&& forall|k: int|
        0 <= k < ends.len() ==> {
            &&& #[trigger] chain_start(lo, ends, k) < ends[k]
            &&& is_plain_name(s.subrange(chain_start(lo, ends, k), ends[k]))
            &&& k + 1 < ends.len() ==> s[ends[k]] == ' ' && binop_char(s[ends[k] + 1])
                && s[ends[k] + 2] == ' '
        }
}

/// Whether `s` is plain names joined by operators of one character, such
/// as `a + b * c`, with whitespace around it allowed.
pub open spec fn operator_chain(s: Seq<char>) -> bool {
    exists|lo: int, ends: Seq<int>| #[trigger] chain_at(s, lo, ends)
}

/// Where the first name of the chain `s` starts and where its names end.
pub open spec fn chain_parts(s: Seq<char>) -> (int, Seq<int>) {
    choose|lo: int, ends: Seq<int>| chain_at(s, lo, ends)
}

/// The names of the chain `s`, in order.
pub open spec fn chain_names(s: Seq<char>) -> Seq<Seq<char>> {
    let (lo, ends) = chain_parts(s);
    Seq::new(ends.len(), |k: int| s.subrange(chain_start(lo, ends, k), ends[k]))
}

/// The variables the chain `s` reads: its names, each once, in the order
/// they first occur.
pub open spec fn chain_vars(s: Seq<char>) -> Seq<Seq<char>> {
    fresh_names(chain_names(s), Seq::empty())
}

/// The names of a chain end in increasing order, the last at the end.
proof fn lemma_chain_ends(s: Seq<char>, lo: int, ends: Seq<int>, k: int)
    requires
        chain_at(s, lo, ends),
        0 <= k < ends.len(),
    ensures
        lo <= chain_start(lo, ends, k) < ends[k] <= ends.last() <= s.len(),
    decreases ends.len() - k,
{
    assert(chain_start(lo, ends, k) < ends[k]);
    if k + 1 < ends.len() {
        assert(chain_start(lo, ends, k + 1) < ends[k + 1]);
        lemma_chain_ends(s, lo, ends, k + 1);
    }
    if k > 0 {
        lemma_chain_starts(s, lo, ends, k);
    }
}

/// Each name of a chain starts after the first one does.
proof fn lemma_chain_starts(s: Seq<char>, lo: int, ends: Seq<int>, k: int)
    requires
        chain_at(s, lo, ends),
        0 <= k < ends.len(),
    ensures
        lo <= chain_start(lo, ends, k),
    decreases k,
{
    if k > 0 {
        assert(chain_start(lo, ends, k - 1) < ends[k - 1]);
        lemma_chain_starts(s, lo, ends, k - 1);
    }
}

/// The characters of the `k`-th name of a chain, and of what follows it.
proof fn lemma_chain_chars(s: Seq<char>, lo: int, ends: Seq<int>, k: int)
    requires
        chain_at(s, lo, ends),
        0 <= k < ends.len(),
    ensures
        lo <= chain_start(lo, ends, k) < ends[k] <= ends.last() <= s.len(),
        name_start_char(s[chain_start(lo, ends, k)]),
        forall|m: int| chain_start(lo, ends, k) <= m < ends[k] ==> name_char(#[trigger] s[m]),
        k + 1 < ends.len() ==> {
            &&& ends[k] + 3 == chain_start(lo, ends, k + 1)
            &&& ends[k] + 3 < ends[k + 1]
            &&& s[ends[k]] == ' '
            &&& binop_char(s[ends[k] + 1])
            &&& s[ends[k] + 2] == ' '
        },
        k + 1 == ends.len() ==> ends[k] == ends.last(),
{
    lemma_chain_ends(s, lo, ends, k);
    let a = chain_start(lo, ends, k);
    let w = s.subrange(a, ends[k]);
    assert(is_plain_name(w));
    assert forall|m: int| a <= m < ends[k] implies name_char(#[trigger] s[m]) by {
        assert(w[m - a] == s[m]);
    }
    assert(w[0] == s[a]);
    if k + 1 < ends.len() {
        assert(chain_start(lo, ends, k + 1) < ends[k + 1]);
    }
}

fn is_ascii_alpha(c: char) -> (r: bool)
    ensures
        r == (('a' <= c && c <= 'z') || ('A' <= c && c <= 'Z')),
{
    ('a' <= c && c <= 'z') || ('A' <= c && c <= 'Z')
}

fn is_digit(c: char) -> (r: bool)
    ensures
        r == ('0' <= c && c <= '9'),
{
    '0' <= c && c <= '9'
}

fn is_name_start(c: char) -> (r: bool)
    ensures
        r == name_start_char(c),
{
    is_ascii_alpha(c) || c == '_' || c > '\x7f'
}

fn is_name_char(c: char) -> (r: bool)
    ensures
        r == name_char(c),
{
    is_name_start(c) || is_digit(c)
}

fn is_space(c: char) -> (r: bool)
    ensures
        r == (c == ' ' || c == '\t' || c == '\n' || c == '\r' || c == '\x0c'),
{
    c == ' ' || c == '\t' || c == '\n' || c == '\r' || c == '\x0c'
}

/// Whether `chars[start..end]` is exactly `word`.
fn range_is(chars: &Vec<char>, start: usize, end: usize, word: &str) -> (r: bool)
    requires
        start <= end <= chars@.len(),
    ensures
        r == (chars@.subrange(start as int, end as int) == word@),
{
    let w = str_to_chars(word);
    if end - start != w.len() {
        return false;
    }
    let r = chars_have_at(chars, start, word);
    proof {
        if r {
            assert(chars@.subrange(start as int, end as int) =~= chars@.skip(start as int).subrange(
                0,
                w@.len() as int,
            ));
        } else {
            if chars@.subrange(start as int, end as int) == word@ {
                assert(chars@.skip(start as int).subrange(0, w@.len() as int) =~= chars@.subrange(
                    start as int,
                    end as int,
                ));
            }
        }
    }
    r
}

/// Where the body of a string literal closed by `quote` (three of them when
/// `triple`), read from `j` on, ends: just past its closing quote(s). `None`
/// when the characters run out first, or when a line ends inside a literal
/// that is not triple-quoted. A backslash escapes the character after it.
pub open spec fn string_end_from(cs: Seq<char>, quote: char, triple: bool, j: int) -> Option<int>
    decreases cs.len() - j,
{
    if j < 0 || j >= cs.len() {
        None
    } else if cs[j] == '\\' {
        if j + 1 >= cs.len() {
            None
        } else {
            string_end_from(cs, quote, triple, j + 2)
        }
    } else if cs[j] == quote {
        if !triple {
            Some(j + 1)
        } else if j + 2 < cs.len() && cs[j + 1] == quote && cs[j + 2] == quote {
            Some(j + 3)
        } else {
            string_end_from(cs, quote, triple, j + 1)
        }
    } else if cs[j] == '\n' && !triple {
        None
    } else {
        string_end_from(cs, quote, triple, j + 1)
    }
}

/// Whether the quote at `q` opens a triple-quoted literal.
pub open spec fn triple_quoted(cs: Seq<char>, q: int) -> bool {
    q + 2 < cs.len() && cs[q + 1] == cs[q] && cs[q + 2] == cs[q]
}

/// Where the string literal whose opening quote stands at `q` ends.
pub open spec fn string_end(cs: Seq<char>, q: int) -> Option<int> {
    if triple_quoted(cs, q) {
        string_end_from(cs, cs[q], true, q + 3)
    } else {
        string_end_from(cs, cs[q], false, q + 1)
    }
}

/// Where a string literal whose opening quote stands at `q` ends (just past
/// its closing quote), or `None` when it is not closed.
fn scan_string(chars: &Vec<char>, q: usize) -> (r: Option<usize>)
    requires
        q < chars@.len() <= MAX_EXPR_LEN,
    ensures
        r matches Some(e) ==> q < e <= chars@.len() && string_end(chars@, q as int) == Some(
            e as int,
        ),
        r is None <==> string_end(chars@, q as int) is None,
{
    let ghost cs = chars@;
    let n = chars.len();
    let quote = chars[q];
    let triple = q + 2 < n && chars[q + 1] == quote && chars[q + 2] == quote;
    let mut j: usize = if triple {
        q + 3
    } else {
        q + 1
    };
    while j < n
        invariant
            q < j,
            cs == chars@,
            n == chars@.len() <= MAX_EXPR_LEN,
            triple ==> q + 3 <= j,
            quote == cs[q as int],
            triple == triple_quoted(cs, q as int),
            string_end_from(cs, quote, triple, j as int) == string_end(cs, q as int),
        decreases n - j,
    {
        let c = chars[j];
        if c == '\\' {
            if j + 1 >= n {
                return None;
            }
            j = j + 2;
        } else if c == quote {
            if !triple {
                return Some(j + 1);
            }
            if j + 2 < n && chars[j + 1] == quote && chars[j + 2] == quote {
                return Some(j + 3);
            }
            j = j + 1;
        } else if c == '\n' && !triple {
            return None;
        } else {
            j = j + 1;
        }
    }
    None
}

/// Whether `c` marks a raw string literal.
pub open spec fn raw_marker(c: char) -> bool {
    c == 'r' || c == 'R'
}

/// Whether `c` marks a bytes or a formatted string literal.
pub open spec fn bytes_or_format_marker(c: char) -> bool {
    c == 'b' || c == 'B' || c == 'f' || c == 'F'
}

/// Whether `w` may prefix a string literal: `r`, `b`, `f` or `u`, or a raw
/// marker beside a bytes or format marker, in either order and case.
pub open spec fn string_prefix(w: Seq<char>) -> bool {
    ||| w.len() == 1 && (raw_marker(w[0]) || bytes_or_format_marker(w[0]) || w[0] == 'u' || w[0]
        == 'U')
    ||| w.len() == 2 && ((raw_marker(w[0]) && bytes_or_format_marker(w[1])) || (
    bytes_or_format_marker(w[0]) && raw_marker(w[1])))
}

/// Whether `chars[start..end]` may prefix a string literal (`r`, `b`, `f`,
/// `u`, `rb`, `br`, `fr`, `rf`, in either case).
fn is_string_prefix(chars: &Vec<char>, start: usize, end: usize) -> (r: bool)
    requires
        start <= end <= chars@.len(),
    ensures
        r == string_prefix(chars@.subrange(start as int, end as int)),
{
    let len = end - start;
    if len == 1 {
        let c = chars[start];
        c == 'r' || c == 'R' || c == 'b' || c == 'B' || c == 'f' || c == 'F' || c == 'u' || c
            == 'U'
    } else if len == 2 {
        let a = chars[start];
        let b = chars[start + 1];
        let a_r = a == 'r' || a == 'R';
        let b_r = b == 'r' || b == 'R';
        let a_bf = a == 'b' || a == 'B' || a == 'f' || a == 'F';
        let b_bf = b == 'b' || b == 'B' || b == 'f' || b == 'F';
        (a_r && b_bf) || (a_bf && b_r)
    } else {
        false
    }
}

/// An error found at character `at`.
struct ScanError {
    message: String,
    at: usize,
}

fn scan_error(message: &str, at: usize) -> (r: ScanError)
    ensures
        r.message@ == message@,
        r.at == at,
{
    ScanError { message: owned(message), at }
}

/// Whether `w` has the shape of a Python name: a name-start character, then
/// name characters.
pub open spec fn name_shaped(w: Seq<char>) -> bool {
    &&& w.len() > 0
    &&& name_start_char(w[0])
    &&& forall|i: int| 0 <= i < w.len() ==> name_char(#[trigger] w[i])
}

/// Whether every name token of `toks` has the shape of a name in `chars`.
spec fn names_shaped(toks: Seq<PyTok>, chars: Seq<char>) -> bool {
    forall|k: int|
        0 <= k < toks.len() && (#[trigger] toks[k]).kind == T_NAME ==> name_shaped(
            chars.subrange(toks[k].start as int, toks[k].end as int),
        )
}

/// Whether `tk` is a name token `start..end`.
spec fn name_tok(tk: PyTok, start: int, end: int) -> bool {
    tk.kind == T_NAME && tk.start == start && tk.end == end
}

/// How far tokenizing `target in iterable` (split at `t`, `n` characters)
/// has come when it stands at `i` with tokens `toks`.
spec fn loop_stage(toks: Seq<PyTok>, i: int, t: int, n: int) -> bool {
    ||| i == 0 && toks.len() == 0
    ||| (i == t || i == t + 1) && toks.len() == 1 && name_tok(toks[0], 0, t)
    ||| (i == t + 3 || i == t + 4) && toks.len() == 2 && name_tok(toks[0], 0, t) && name_tok(
        toks[1],
        t + 1,
        t + 3,
    )
    ||| i == n && toks.len() == 3 && name_tok(toks[0], 0, t) && name_tok(toks[1], t + 1, t + 3)
        && name_tok(toks[2], t + 4, n)
}

/// Whether `op` is the kind of an operator that joins two operands.
spec fn joining_op(op: u8) -> bool {
    op == OP_BIN || op == OP_PLUSMINUS || op == OP_STAR
}

/// Whether `toks` are the first tokens of the chain whose first name starts
/// at `lo` and whose names end at `ends`: its names and the operators
/// between them, alternately.
#[verifier::opaque]
spec fn chain_toks(toks: Seq<PyTok>, lo: int, ends: Seq<int>) -> bool {
    forall|q: int|
        0 <= q < toks.len() ==> {
            &&& q % 2 == 0 ==> 0 <= q / 2 < ends.len() && name_tok(
                #[trigger] toks[q],
                chain_start(lo, ends, q / 2),
                ends[q / 2],
            )
            &&& q % 2 == 1 ==> toks[q].kind == T_OP && joining_op(toks[q].op)
        }
}

/// How far tokenizing the chain has come when it stands at `i`: before the
/// `k`-th name, after it, or after the operator that follows it.
spec fn chain_stage(toks: Seq<PyTok>, i: int, lo: int, ends: Seq<int>, k: int) -> bool {
    &&& chain_toks(toks, lo, ends)
    &&& chain_pos(toks.len() as int, i, lo, ends, k)
}

/// Where tokenizing the chain stands, by the number `m` of tokens read.
spec fn chain_pos(m: int, i: int, lo: int, ends: Seq<int>, k: int) -> bool {
    &&& 0 <= k < ends.len()
    &&& {
        ||| m == 2 * k && (i == chain_start(lo, ends, k) || (k == 0 && 0 <= i <= lo))
        ||| m == 2 * k + 1 && ends[k] <= i && (k + 1 < ends.len() ==> i <= ends[k] + 1)
        ||| m == 2 * k + 2 && k + 1 < ends.len() && i == ends[k] + 2
    }
}

/// Whether `toks[from..to]` is plain names joined by operators, alternately.
spec fn chain_tokens(chars: Seq<char>, toks: Seq<PyTok>, from: int, to: int) -> bool {
    &&& from < to
    &&& (to - from) % 2 == 1
    &&& forall|q: int|
        from <= q < to ==> {
            &&& (q - from) % 2 == 0 ==> (#[trigger] toks[q]).kind == T_NAME && !python_keyword(
                chars.subrange(toks[q].start as int, toks[q].end as int),
            )
            &&& (q - from) % 2 == 1 ==> toks[q].kind == T_OP && joining_op(toks[q].op)
        }
}

/// The ranges of the names of `toks[from..k]` read as a chain: the tokens at
/// even distance from `from`.
spec fn chain_used(toks: Seq<PyTok>, from: int, k: int) -> Seq<(usize, usize)> {
    Seq::new(
        ((k - from + 1) / 2) as nat,
        |j: int| (toks[from + 2 * j].start, toks[from + 2 * j].end),
    )
}

/// The names a chain's tokens read are the chain's names.
proof fn lemma_chain_names(chars: Seq<char>, toks: Seq<PyTok>)
    requires
        operator_chain(chars),
        chain_toks(toks, chain_parts(chars).0, chain_parts(chars).1),
        toks.len() == 2 * chain_parts(chars).1.len() - 1,
    ensures
        range_texts(chars, chain_used(toks, 0, toks.len() as int)) == chain_names(chars),
{
    let (lo, ends) = chain_parts(chars);
    reveal(chain_toks);
    let a = range_texts(chars, chain_used(toks, 0, toks.len() as int));
    let b = chain_names(chars);
    assert(a.len() == b.len());
    assert forall|j: int| 0 <= j < a.len() implies a[j] == b[j] by {
        let q = 2 * j;
        assert(q % 2 == 0 && q / 2 == j);
        assert(name_tok(toks[q], chain_start(lo, ends, j), ends[j]));
    }
    assert(a =~= b);
}

/// What stands at `i` while tokenizing a chain: whitespace, the start of
/// the name due next, or the operator due next.
proof fn lemma_chain_here(s: Seq<char>, lo: int, ends: Seq<int>, k: int, m: int, i: int)
    requires
        chain_at(s, lo, ends),
        chain_pos(m, i, lo, ends, k),
        0 <= i < s.len(),
    ensures
        space_char(s[i]) || (name_start_char(s[i]) && i == chain_start(lo, ends, k) && m == 2
            * k) || (binop_char(s[i]) && k + 1 < ends.len() && i == ends[k] + 1 && m == 2 * k
            + 1),
{
    lemma_chain_chars(s, lo, ends, k);
    if m == 2 * k && i != chain_start(lo, ends, k) {
        assert(k == 0 && i < lo);
        assert(space_char(s[i]));
    } else if m == 2 * k + 1 && k + 1 == ends.len() {
        assert(ends.last() <= i);
        assert(space_char(s[i]));
    }
}

/// Once the whole chain is read, its tokens are its names and operators,
/// alternately.
proof fn lemma_chain_done(s: Seq<char>, lo: int, ends: Seq<int>, k: int, toks: Seq<PyTok>)
    requires
        chain_at(s, lo, ends),
        chain_stage(toks, s.len() as int, lo, ends, k),
    ensures
        chain_tokens(s, toks, 0, toks.len() as int),
{
    lemma_chain_chars(s, lo, ends, k);
    if k + 1 < ends.len() {
        lemma_chain_chars(s, lo, ends, k + 1);
    }
    assert(k + 1 == ends.len());
    reveal(chain_toks);
    assert forall|q: int| 0 <= q < toks.len() implies {
        &&& (q - 0) % 2 == 0 ==> (#[trigger] toks[q]).kind == T_NAME && !python_keyword(
            s.subrange(toks[q].start as int, toks[q].end as int),
        )
        &&& (q - 0) % 2 == 1 ==> toks[q].kind == T_OP && joining_op(toks[q].op)
    } by {
        if q % 2 == 0 {
            let h = q / 2;
            assert(chain_start(lo, ends, h) < ends[h]);
            assert(is_plain_name(s.subrange(chain_start(lo, ends, h), ends[h])));
        }
    }
}

/// Split an expression into tokens, setting comments aside.
#[verifier::rlimit(60)]
fn tokenize(chars: &Vec<char>) -> (r: Result<(Vec<PyTok>, Vec<(usize, usize)>), ScanError>)
    requires
        chars@.len() <= MAX_EXPR_LEN,
    ensures
        r matches Ok((toks, comments)) ==> toks_in(toks@, chars@.len() as int) && ranges_in(
            comments@,
            chars@.len() as int,
        ) && names_shaped(toks@, chars@),
        forall|a: int, b: int|
            #[trigger] padded_name(chars@, a, b) ==> (r matches Ok((toks, comments))
                && toks@.len() == 1 && name_tok(toks@[0], a, b) && comments@.len() == 0),
        forall|t: int|
            #[trigger] loop_split(chars@, t) ==> (r matches Ok((toks, comments)) && toks@.len()
                == 3 && name_tok(toks@[0], 0, t) && name_tok(toks@[1], t + 1, t + 3) && name_tok(
                toks@[2],
                t + 4,
                chars@.len() as int,
            ) && comments@.len() == 0),
        operator_chain(chars@) ==> (r matches Ok((toks, comments)) && comments@.len() == 0
            && chain_tokens(chars@, toks@, 0, toks@.len() as int) && chain_toks(
            toks@,
            chain_parts(chars@).0,
            chain_parts(chars@).1,
        ) && toks@.len() == 2 * chain_parts(chars@).1.len() - 1),
{
    let ghost chain = operator_chain(chars@);
    let ghost (clo, cends): (int, Seq<int>) = chain_parts(chars@);
    let ghost mut ck: int = 0;
    let ghost split = exists|t: int| loop_split(chars@, t);
    let ghost t: int = if split {
        choose|t: int| loop_split(chars@, t)
    } else {
        0
    };
    let ghost pad = exists|a: int, b: int| padded_name(chars@, a, b);
    let ghost (pa, pb): (int, int) = if pad {
        choose|a: int, b: int| padded_name(chars@, a, b)
    } else {
        (0, 0)
    };
    proof {
        if split {
            lemma_loop_split_chars(chars@, t);
            assert forall|u: int| #[trigger] loop_split(chars@, u) implies u == t by {
                lemma_loop_split_unique(chars@, t, u);
            }
        }
        assert forall|u: int| #[trigger] loop_split(chars@, u) implies split && u == t by {
            if loop_split(chars@, u) {
                lemma_loop_split_unique(chars@, t, u);
            }
        }
        assert forall|a: int, b: int| #[trigger] padded_name(chars@, a, b) implies pad && a == pa
            && b == pb by {
            if padded_name(chars@, a, b) {
                lemma_padded_unique(chars@, pa, pb, a, b);
            }
        }
    }
    let n = chars.len();
    let mut toks: Vec<PyTok> = Vec::new();
    let mut comments: Vec<(usize, usize)> = Vec::new();
    let mut i: usize = 0;
    proof {
        if chain {
            reveal(chain_toks);
            lemma_chain_chars(chars@, clo, cends, 0);
        }
    }
    while i < n
        invariant
            i <= n == chars@.len() <= MAX_EXPR_LEN,
            toks_in(toks@, n as int),
            names_shaped(toks@, chars@),
            ranges_in(comments@, n as int),
            forall|a: int, b: int| #[trigger] padded_name(chars@, a, b) ==> pad && a == pa && b == pb,
            pad ==> padded_name(chars@, pa, pb) && comments@.len() == 0 && ((i <= pa && toks@.len()
                == 0) || (pb <= i && toks@.len() == 1 && name_tok(toks@[0], pa, pb))),
            split ==> loop_split(chars@, t) && comments@.len() == 0 && loop_stage(
                toks@,
                i as int,
                t,
                n as int,
            ),
            forall|u: int| #[trigger] loop_split(chars@, u) ==> split && u == t,
            chain == operator_chain(chars@),
            chain ==> chain_at(chars@, clo, cends) && comments@.len() == 0 && chain_stage(
                toks@,
                i as int,
                clo,
                cends,
                ck,
            ),
        decreases n - i,
    {
        proof {
            if split {
                lemma_loop_split_chars(chars@, t);
            }
            if pad {
                lemma_padded_chars(chars@, pa, pb);
            }
            if chain {
                lemma_chain_chars(chars@, clo, cends, ck);
                lemma_chain_here(chars@, clo, cends, ck, toks@.len() as int, i as int);
            }
        }
        let c = chars[i];
        if is_space(c) {
            i = i + 1;
            proof {
                if chain && ck + 1 < cends.len() && i == cends[ck] + 3 {
                    ck = ck + 1;
                }
            }
        } else if c == '\\' {
            if i + 1 < n && chars[i + 1] == '\n' {
                i = i + 2;
            } else {
                return Err(scan_error("unexpected character after line continuation", i));
            }
        } else if c == '#' {
            let mut j = i + 1;
            while j < n && chars[j] != '\n'
                invariant
                    i < j <= n == chars@.len(),
                decreases n - j,
            {
                j = j + 1;
            }
            comments.push((i, j));
            proof {
                assert(ranges_in(comments@, n as int));
            }
            i = j;
        } else if is_name_start(c) {
            let mut j = i + 1;
            while j < n && is_name_char(chars[j])
                invariant
                    i < j <= n == chars@.len(),
                    name_start_char(chars@[i as int]),
                    forall|k: int| i <= k < j ==> name_char(#[trigger] chars@[k]),
                    split ==> 0 < t && t + 4 < n && chars@[t] == ' ' && chars@[t + 3] == ' ',
                    split && i == 0 ==> j <= t,
                    split && i == t + 1 ==> j <= t + 3,
                    pad ==> pb <= n && (pb < n ==> space_char(chars@[pb])),
                    pad && i == pa ==> j <= pb,
                    chain ==> 0 <= ck < cends.len() && cends[ck] <= n && (cends[ck] < n
                        ==> space_char(chars@[cends[ck]])),
                    chain && i == chain_start(clo, cends, ck) ==> j <= cends[ck],
                decreases n - j,
            {
                j = j + 1;
            }
            proof {
                if pad {
                    lemma_padded_chars(chars@, pa, pb);
                    if i == pa && j < pb {
                        assert(name_char(chars@[j as int]));
                    }
                }
                if split {
                    lemma_loop_split_chars(chars@, t);
                    if i == 0 && j < t {
                        assert(name_char(chars@[j as int]));
                    }
                    if i == t + 1 && j < t + 3 {
                        assert(name_char(chars@[j as int]));
                    }
                    if i == t + 4 && j < n {
                        assert(name_char(chars@[j as int]));
                    }
                }
                if chain {
                    lemma_chain_chars(chars@, clo, cends, ck);
                    if j < cends[ck] {
                        assert(name_char(chars@[j as int]));
                    }
                }
            }
            if j < n && (chars[j] == '"' || chars[j] == '\'') && is_string_prefix(chars, i, j) {
                match scan_string(chars, j) {
                    Some(e) => {
                        toks.push(PyTok { kind: T_STRING, op: OP_NONE, start: i, end: e });
                        i = e;
                    },
                    None => {
                        return Err(scan_error("unterminated string literal", i));
                    },
                }
            } else {
                let ghost before = toks@;
                toks.push(PyTok { kind: T_NAME, op: OP_NONE, start: i, end: j });
                proof {
                    if chain {
                        reveal(chain_toks);
                        assert forall|q: int| 0 <= q < toks@.len() implies {
                            &&& q % 2 == 0 ==> 0 <= q / 2 < cends.len() && name_tok(
                                #[trigger] toks@[q],
                                chain_start(clo, cends, q / 2),
                                cends[q / 2],
                            )
                            &&& q % 2 == 1 ==> toks@[q].kind == T_OP && joining_op(toks@[q].op)
                        } by {
                            if q < before.len() {
                                assert(toks@[q] == before[q]);
                            }
                        }
                    }
                    let w = chars@.subrange(i as int, j as int);
                    assert forall|k: int| 0 <= k < w.len() implies name_char(#[trigger] w[k]) by {
                        assert(w[k] == chars@[i + k]);
                    }
                    assert(name_shaped(w));
                    assert forall|k: int| 0 <= k < toks@.len() && (#[trigger] toks@[k]).kind == T_NAME
                        implies name_shaped(
                        chars@.subrange(toks@[k].start as int, toks@[k].end as int),
                    ) by {
                        if k < before.len() {
                            assert(toks@[k] == before[k]);
                        }
                    }
                }
                i = j;
            }
        } else if is_digit(c) || (c == '.' && i + 1 < n && is_digit(chars[i + 1])) {
            let mut j = i + 1;
            while j < n && (is_name_char(chars[j]) || chars[j] == '.' || ((chars[j] == '+'
                || chars[j] == '-') && (chars[j - 1] == 'e' || chars[j - 1] == 'E')))
                invariant
                    i < j <= n == chars@.len(),
                decreases n - j,
            {
                j = j + 1;
            }
            toks.push(PyTok { kind: T_NUMBER, op: OP_NONE, start: i, end: j });
            i = j;
        } else if c == '"' || c == '\'' {
            match scan_string(chars, i) {
                Some(e) => {
                    toks.push(PyTok { kind: T_STRING, op: OP_NONE, start: i, end: e });
                    i = e;
                },
                None => {
                    return Err(scan_error("unterminated string literal", i));
                },
            }
        } else {
            let next = if i + 1 < n {
                chars[i + 1]
            } else {
                ' '
            };
            let next2 = if i + 2 < n {
                chars[i + 2]
            } else {
                ' '
            };
            let two = (c == '*' && next == '*') || (c == '/' && next == '/') || (c == '<' && next
                == '<') || (c == '>' && next == '>');
            let (op, len): (u8, usize) = if c == ':' && next == '=' {
                (OP_WALRUS, 2)
            } else if (c == '<' || c == '>' || c == '=' || c == '!') && next == '=' {
                (OP_BIN, 2)
            } else if two {
                if next2 == '=' {
                    return Err(scan_error("assignment is not allowed in an expression", i));
                }
                if c == '*' {
                    (OP_STAR, 2)
                } else {
                    (OP_BIN, 2)
                }
            } else if next == '=' && (c == '+' || c == '-' || c == '*' || c == '/' || c == '%'
                || c == '&' || c == '|' || c == '^' || c == '@') {
                return Err(scan_error("assignment is not allowed in an expression", i));
            } else if c == '(' {
                (OP_LPAR, 1)
            } else if c == ')' {
                (OP_RPAR, 1)
            } else if c == '[' {
                (OP_LSQB, 1)
            } else if c == ']' {
                (OP_RSQB, 1)
            } else if c == '{' {
                (OP_LBRACE, 1)
            } else if c == '}' {
                (OP_RBRACE, 1)
            } else if c == ',' {
                (OP_COMMA, 1)
            } else if c == ':' {
                (OP_COLON, 1)
            } else if c == '.' {
                (OP_DOT, 1)
            } else if c == '=' {
                (OP_EQUAL, 1)
            } else if c == '+' || c == '-' {
                (OP_PLUSMINUS, 1)
            } else if c == '~' {
                (OP_TILDE, 1)
            } else if c == '*' {
                (OP_STAR, 1)
            } else if c == '/' || c == '%' || c == '@' || c == '&' || c == '|' || c == '^' || c
                == '<' || c == '>' {
                (OP_BIN, 1)
            } else {
                return Err(scan_error("invalid character in expression", i));
            };
            if i + len > n {
                return Err(scan_error("invalid character in expression", i));
            }
            let ghost before = toks@;
            toks.push(PyTok { kind: T_OP, op, start: i, end: i + len });
            proof {
                if chain {
                    reveal(chain_toks);
                    assert forall|q: int| 0 <= q < toks@.len() implies {
                        &&& q % 2 == 0 ==> 0 <= q / 2 < cends.len() && name_tok(
                            #[trigger] toks@[q],
                            chain_start(clo, cends, q / 2),
                            cends[q / 2],
                        )
                        &&& q % 2 == 1 ==> toks@[q].kind == T_OP && joining_op(toks@[q].op)
                    } by {
                        if q < before.len() {
                            assert(toks@[q] == before[q]);
                        }
                    }
                }
            }
            i = i + len;
        }
    }
    proof {
        if chain {
            lemma_chain_done(chars@, clo, cends, ck, toks@);
            lemma_chain_chars(chars@, clo, cends, ck);
            if ck + 1 < cends.len() {
                lemma_chain_chars(chars@, clo, cends, ck + 1);
            }
        }
    }
    Ok((toks, comments))
}

// ---------------------------------------------------------------------------
// Keywords
// ---------------------------------------------------------------------------

const KW_NONE: u8 = 0;
const KW_BINARY: u8 = 1;
const KW_NOT: u8 = 2;
const KW_IN: u8 = 3;
const KW_FOR: u8 = 4;
const KW_CONST: u8 = 5;
const KW_BAD: u8 = 6;

/// The keyword class of the name `chars[start..end]`.
fn keyword_kind(chars: &Vec<char>, start: usize, end: usize) -> (r: u8)
    requires
        start <= end <= chars@.len(),
    ensures
        !python_keyword(chars@.subrange(start as int, end as int)) <==> r == KW_NONE,
        chars@.subrange(start as int, end as int) == seq!['i', 'n'] ==> r == KW_IN,
        r == KW_FOR ==> chars@.subrange(start as int, end as int) == seq!['f', 'o', 'r'],
{
    proof {
        reveal_strlit("and");
        assert("and"@ =~= seq!['a', 'n', 'd']);
        reveal_strlit("or");
        assert("or"@ =~= seq!['o', 'r']);
        reveal_strlit("if");
        assert("if"@ =~= seq!['i', 'f']);
        reveal_strlit("else");
        assert("else"@ =~= seq!['e', 'l', 's', 'e']);
        reveal_strlit("is");
        assert("is"@ =~= seq!['i', 's']);
        reveal_strlit("not");
        assert("not"@ =~= seq!['n', 'o', 't']);
        reveal_strlit("in");
        assert("in"@ =~= seq!['i', 'n']);
        reveal_strlit("for");
        assert("for"@ =~= seq!['f', 'o', 'r']);
        reveal_strlit("True");
        assert("True"@ =~= seq!['T', 'r', 'u', 'e']);
        reveal_strlit("False");
        assert("False"@ =~= seq!['F', 'a', 'l', 's', 'e']);
        reveal_strlit("None");
        assert("None"@ =~= seq!['N', 'o', 'n', 'e']);
        reveal_strlit("lambda");
        assert("lambda"@ =~= seq!['l', 'a', 'm', 'b', 'd', 'a']);
        reveal_strlit("await");
        assert("await"@ =~= seq!['a', 'w', 'a', 'i', 't']);
        reveal_strlit("yield");
        assert("yield"@ =~= seq!['y', 'i', 'e', 'l', 'd']);
        reveal_strlit("def");
        assert("def"@ =~= seq!['d', 'e', 'f']);
        reveal_strlit("class");
        assert("class"@ =~= seq!['c', 'l', 'a', 's', 's']);
        reveal_strlit("return");
        assert("return"@ =~= seq!['r', 'e', 't', 'u', 'r', 'n']);
        reveal_strlit("import");
        assert("import"@ =~= seq!['i', 'm', 'p', 'o', 'r', 't']);
        reveal_strlit("from");
        assert("from"@ =~= seq!['f', 'r', 'o', 'm']);
        reveal_strlit("as");
        assert("as"@ =~= seq!['a', 's']);
        reveal_strlit("assert");
        assert("assert"@ =~= seq!['a', 's', 's', 'e', 'r', 't']);
        reveal_strlit("async");
        assert("async"@ =~= seq!['a', 's', 'y', 'n', 'c']);
        reveal_strlit("break");
        assert("break"@ =~= seq!['b', 'r', 'e', 'a', 'k']);
        reveal_strlit("continue");
        assert("continue"@ =~= seq!['c', 'o', 'n', 't', 'i', 'n', 'u', 'e']);
        reveal_strlit("del");
        assert("del"@ =~= seq!['d', 'e', 'l']);
        reveal_strlit("elif");
        assert("elif"@ =~= seq!['e', 'l', 'i', 'f']);
        reveal_strlit("except");
        assert("except"@ =~= seq!['e', 'x', 'c', 'e', 'p', 't']);
        reveal_strlit("finally");
        assert("finally"@ =~= seq!['f', 'i', 'n', 'a', 'l', 'l', 'y']);
        reveal_strlit("global");
        assert("global"@ =~= seq!['g', 'l', 'o', 'b', 'a', 'l']);
        reveal_strlit("nonlocal");
        assert("nonlocal"@ =~= seq!['n', 'o', 'n', 'l', 'o', 'c', 'a', 'l']);
        reveal_strlit("pass");
        assert("pass"@ =~= seq!['p', 'a', 's', 's']);
        reveal_strlit("raise");
        assert("raise"@ =~= seq!['r', 'a', 'i', 's', 'e']);
        reveal_strlit("try");
        assert("try"@ =~= seq!['t', 'r', 'y']);
        reveal_strlit("while");
        assert("while"@ =~= seq!['w', 'h', 'i', 'l', 'e']);
        reveal_strlit("with");
        assert("with"@ =~= seq!['w', 'i', 't', 'h']);
    }
    if range_is(chars, start, end, "and") || range_is(chars, start, end, "or") || range_is(
        chars,
        start,
        end,
        "if",
    ) || range_is(chars, start, end, "else") || range_is(chars, start, end, "is") {
        KW_BINARY
    } else if range_is(chars, start, end, "not") {
        KW_NOT
    } else if range_is(chars, start, end, "in") {
        KW_IN
    } else if range_is(chars, start, end, "for") {
        KW_FOR
    } else if range_is(chars, start, end, "True") || range_is(chars, start, end, "False")
        || range_is(chars, start, end, "None") {
        KW_CONST
    } else if range_is(chars, start, end, "lambda") || range_is(chars, start, end, "await")
        || range_is(chars, start, end, "yield") || range_is(chars, start, end, "def")
        || range_is(chars, start, end, "class") || range_is(chars, start, end, "return")
        || range_is(chars, start, end, "import") || range_is(chars, start, end, "from")
        || range_is(chars, start, end, "as") || range_is(chars, start, end, "assert")
        || range_is(chars, start, end, "async") || range_is(chars, start, end, "break")
        || range_is(chars, start, end, "continue") || range_is(chars, start, end, "del")
        || range_is(chars, start, end, "elif") || range_is(chars, start, end, "except")
        || range_is(chars, start, end, "finally") || range_is(chars, start, end, "global")
        || range_is(chars, start, end, "nonlocal") || range_is(chars, start, end, "pass")
        || range_is(chars, start, end, "raise") || range_is(chars, start, end, "try")
        || range_is(chars, start, end, "while") || range_is(chars, start, end, "with") {
        KW_BAD
    } else {
        KW_NONE
    }
}

// ---------------------------------------------------------------------------
// Checking
// ---------------------------------------------------------------------------

/// What checking an expression found: the ranges of the names it reads, of
/// the names it assigns (`:=`), and of comprehension targets.
struct Found {
    used: Vec<(usize, usize)>,
    assigned: Vec<(usize, usize)>,
    targets: Vec<(usize, usize)>,
}

/// Whether every range of `rs` is a plain name in `chars`.
spec fn plain_ranges(chars: Seq<char>, rs: Seq<(usize, usize)>) -> bool {
    forall|k: int|
        0 <= k < rs.len() ==> is_plain_name(
            chars.subrange((#[trigger] rs[k]).0 as int, rs[k].1 as int),
        )
}

/// Whether every token of `ts` is a plain name.
pub open spec fn all_plain_names(ts: Seq<Token>) -> bool {
    forall|k: int| 0 <= k < ts.len() ==> is_plain_name((#[trigger] ts[k]).content@)
}

/// Whether `toks[from..to]` is one name that is not a keyword.
spec fn single_name(chars: Seq<char>, toks: Seq<PyTok>, from: int, to: int) -> bool {
    &&& from + 1 == to
    &&& toks[from].kind == T_NAME
    &&& !python_keyword(chars.subrange(toks[from].start as int, toks[from].end as int))
}

/// Whether `toks[from..to]` is `name in name`, with two names that are not
/// keywords.
spec fn name_in_name(chars: Seq<char>, toks: Seq<PyTok>, from: int, to: int) -> bool {
    &&& from + 3 == to
    &&& toks[from].kind == T_NAME
    &&& !python_keyword(chars.subrange(toks[from].start as int, toks[from].end as int))
    &&& toks[from + 1].kind == T_NAME
    &&& chars.subrange(toks[from + 1].start as int, toks[from + 1].end as int) == seq!['i', 'n']
    &&& toks[from + 2].kind == T_NAME
    &&& !python_keyword(chars.subrange(toks[from + 2].start as int, toks[from + 2].end as int))
}

/// The range of token `t`.
spec fn tok_range(t: PyTok) -> (usize, usize) {
    (t.start, t.end)
}

/// Whether `t` is the operator `.`.
spec fn dot_tok(t: PyTok) -> bool {
    t.kind != T_NAME && t.kind != T_NUMBER && t.kind != T_STRING && t.op == OP_DOT
}

/// Whether `toks[k]`, read from `from` on, is a name that is not a keyword
/// and does not follow a `.`: a name the expression reads, unless it names
/// a keyword argument, a walrus target or a comprehension target.
spec fn name_read_at(chars: Seq<char>, toks: Seq<PyTok>, from: int, k: int) -> bool {
    &&& toks[k].kind == T_NAME
    &&& !python_keyword(chars.subrange(toks[k].start as int, toks[k].end as int))
    &&& !(k > from && dot_tok(toks[k - 1]))
}

/// Whether the token after `toks[k]`, before `to`, is the operator `op`.
spec fn next_op_is(toks: Seq<PyTok>, to: int, k: int, op: u8) -> bool {
    k + 1 < to && toks[k + 1].kind == T_OP && toks[k + 1].op == op
}

/// Whether a `for` keyword stands among `toks[from..k]`.
spec fn for_before(chars: Seq<char>, toks: Seq<PyTok>, from: int, k: int) -> bool {
    exists|j: int|
        from <= j < k && (#[trigger] toks[j]).kind == T_NAME && chars.subrange(
            toks[j].start as int,
            toks[j].end as int,
        ) == seq!['f', 'o', 'r']
}

/// Whether the name `toks[k]` is accounted for: read (in `used`), or,
/// when `:=` follows it, assigned, or, after a `for`, a comprehension
/// target, or the name of a keyword argument (`=` follows it).
spec fn name_accounted(
    chars: Seq<char>,
    toks: Seq<PyTok>,
    from: int,
    to: int,
    k: int,
    used: Seq<(usize, usize)>,
    assigned: Seq<(usize, usize)>,
    targets: Seq<(usize, usize)>,
) -> bool {
    ||| used.contains(tok_range(toks[k]))
    ||| next_op_is(toks, to, k, OP_WALRUS) && assigned.contains(tok_range(toks[k]))
    ||| for_before(chars, toks, from, k) && targets.contains(tok_range(toks[k]))
    ||| next_op_is(toks, to, k, OP_EQUAL)
}

/// Pushing keeps what a sequence held, and holds what was pushed.
proof fn lemma_push_contains(s: Seq<(usize, usize)>, x: (usize, usize))
    ensures
        forall|y: (usize, usize)| s.contains(y) ==> #[trigger] s.push(x).contains(y),
        s.push(x).contains(x),
{
    assert forall|y: (usize, usize)| s.contains(y) implies #[trigger] s.push(x).contains(y) by {
        let i = choose|i: int| 0 <= i < s.len() && s[i] == y;
        assert(s.push(x)[i] == y);
    }
    assert(s.push(x)[s.len() as int] == x);
}

/// Check that `toks[from..to]` forms a Python expression and collect the
/// names it reads and assigns.
fn check_tokens(chars: &Vec<char>, toks: &Vec<PyTok>, from: usize, to: usize) -> (r: Result<
    Found,
    ScanError,
>)
    requires
        chars@.len() <= MAX_EXPR_LEN,
        from <= to <= toks@.len(),
        toks_in(toks@, chars@.len() as int),
        names_shaped(toks@, chars@),
    ensures
        r matches Ok(f) ==> plain_ranges(chars@, f.used@) && plain_ranges(chars@, f.assigned@)
            && plain_ranges(chars@, f.targets@),
        r matches Ok(f) ==> ranges_in(f.used@, chars@.len() as int) && ranges_in(
            f.assigned@,
            chars@.len() as int,
        ) && ranges_in(f.targets@, chars@.len() as int),
        single_name(chars@, toks@, from as int, to as int) ==> (r matches Ok(f) && f.used@ == seq![
            (toks@[from as int].start, toks@[from as int].end),
        ] && f.assigned@.len() == 0 && f.targets@.len() == 0),
        name_in_name(chars@, toks@, from as int, to as int) ==> r is Ok,
        chain_tokens(chars@, toks@, from as int, to as int) ==> (r matches Ok(f)
            && f.assigned@.len() == 0 && f.targets@.len() == 0 && f.used@ == chain_used(
            toks@,
            from as int,
            to as int,
        )),
        r matches Ok(f) ==> forall|k: int|
            from <= k < to && #[trigger] name_read_at(chars@, toks@, from as int, k)
                ==> name_accounted(
                chars@,
                toks@,
                from as int,
                to as int,
                k,
                f.used@,
                f.assigned@,
                f.targets@,
            ),
{
    let ghost ct = chain_tokens(chars@, toks@, from as int, to as int);
    let ghost single = single_name(chars@, toks@, from as int, to as int);
    let ghost nin = name_in_name(chars@, toks@, from as int, to as int);
    let n = chars.len();
    let mut used: Vec<(usize, usize)> = Vec::new();
    let mut assigned: Vec<(usize, usize)> = Vec::new();
    let mut targets: Vec<(usize, usize)> = Vec::new();
    let mut stack: Vec<u8> = Vec::new();
    let mut expect_operand = true;
    let mut after_dot = false;
    let mut need_in = false;
    let mut kwarg_pending = false;
    let mut walrus_pending = false;
    // 0 when no comprehension target is being read, else one more than the
    // bracket depth of its `for`.
    let mut for_depth: usize = 0;
    // Kind and operator of the previous token (kind 255 before the first).
    let mut prev_kind: u8 = 255;
    let mut prev_op: u8 = OP_NONE;
    if from == to {
        return Err(scan_error("empty expression", 0));
    }
    let mut k = from;
    let ghost mut for_at: int = 0;
    while k < to
        invariant
            from <= k <= to <= toks@.len(),
            n == chars@.len(),
            forall|j: int|
                from <= j < k && #[trigger] name_read_at(chars@, toks@, from as int, j)
                    ==> name_accounted(
                    chars@,
                    toks@,
                    from as int,
                    to as int,
                    j,
                    used@,
                    assigned@,
                    targets@,
                ),
            after_dot ==> k > from && dot_tok(toks@[k - 1]),
            for_depth > 0 ==> from <= for_at < k && toks@[for_at].kind == T_NAME
                && chars@.subrange(toks@[for_at].start as int, toks@[for_at].end as int)
                == seq!['f', 'o', 'r'],
            toks_in(toks@, n as int),
            ranges_in(used@, n as int),
            ranges_in(assigned@, n as int),
            ranges_in(targets@, n as int),
            names_shaped(toks@, chars@),
            plain_ranges(chars@, used@),
            plain_ranges(chars@, assigned@),
            plain_ranges(chars@, targets@),
            stack@.len() <= k,
            for_depth <= k,
            single == single_name(chars@, toks@, from as int, to as int),
            single ==> {
                &&& assigned@.len() == 0
                &&& targets@.len() == 0
                &&& stack@.len() == 0
                &&& !after_dot
                &&& !need_in
                &&& for_depth == 0
                &&& if k == from {
                    used@.len() == 0 && expect_operand
                } else {
                    k == to && used@ == seq![(toks@[from as int].start, toks@[from as int].end)]
                        && !expect_operand
                }
            },
            nin == name_in_name(chars@, toks@, from as int, to as int),
            nin ==> {
                &&& stack@.len() == 0
                &&& !after_dot
                &&& !need_in
                &&& for_depth == 0
                &&& (k == from || k == from + 2) ==> expect_operand
                &&& (k == from + 1 || k == to) ==> !expect_operand
            },
            ct == chain_tokens(chars@, toks@, from as int, to as int),
            ct ==> {
                &&& stack@.len() == 0
                &&& assigned@.len() == 0
                &&& targets@.len() == 0
                &&& used@ == chain_used(toks@, from as int, k as int)
                &&& !after_dot
                &&& !need_in
                &&& for_depth == 0
                &&& expect_operand == ((k - from) % 2 == 0)
            },
        decreases to - k,
    {
        let t = &toks[k];
        let at = t.start;
        let next_op = if k + 1 < to && toks[k + 1].kind == T_OP {
            toks[k + 1].op
        } else {
            OP_NONE
        };
        if need_in && !(t.kind == T_NAME && keyword_kind(chars, t.start, t.end) == KW_IN) {
            return Err(scan_error("expected 'in' after 'not'", at));
        }
        if t.kind == T_NAME {
            let kw = keyword_kind(chars, t.start, t.end);
            if after_dot {
                if kw != KW_NONE && kw != KW_CONST {
                    return Err(scan_error("expected an attribute name", at));
                }
                after_dot = false;
                expect_operand = false;
            } else if kw == KW_NONE {
                if !expect_operand {
                    return Err(scan_error("invalid syntax: unexpected name", at));
                }
                proof {
                    assert(name_shaped(chars@.subrange(t.start as int, t.end as int)));
                    assert(is_plain_name(chars@.subrange(t.start as int, t.end as int)));
                }
                proof {
                    lemma_push_contains(targets@, (t.start, t.end));
                    lemma_push_contains(assigned@, (t.start, t.end));
                    lemma_push_contains(used@, (t.start, t.end));
                    if for_depth > 0 {
                        assert(toks@[for_at].kind == T_NAME);
                        assert(for_before(chars@, toks@, from as int, k as int));
                    }
                }
                if for_depth > 0 {
                    targets.push((t.start, t.end));
                } else if next_op == OP_EQUAL && stack.len() > 0 && stack[stack.len() - 1]
                    == OP_LPAR {
                    kwarg_pending = true;
                } else if next_op == OP_WALRUS {
                    assigned.push((t.start, t.end));
                    walrus_pending = true;
                } else {
                    used.push((t.start, t.end));
                }
                expect_operand = false;
            } else if kw == KW_CONST {
                if !expect_operand {
                    return Err(scan_error("invalid syntax: unexpected constant", at));
                }
                expect_operand = false;
            } else if kw == KW_BINARY {
                if expect_operand {
                    return Err(scan_error("invalid syntax: unexpected keyword", at));
                }
                expect_operand = true;
            } else if kw == KW_NOT {
                if !expect_operand {
                    need_in = true;
                }
                expect_operand = true;
            } else if kw == KW_IN {
                if for_depth > 0 && stack.len() == for_depth - 1 {
                    if expect_operand {
                        return Err(scan_error("invalid syntax: missing loop target", at));
                    }
                    for_depth = 0;
                } else if expect_operand && !need_in {
                    return Err(scan_error("invalid syntax: unexpected 'in'", at));
                }
                need_in = false;
                expect_operand = true;
            } else if kw == KW_FOR {
                if expect_operand || stack.len() == 0 || for_depth > 0 {
                    return Err(scan_error("invalid syntax: unexpected 'for'", at));
                }
                for_depth = stack.len() + 1;
                proof {
                    for_at = k as int;
                }
                expect_operand = true;
            } else {
                return Err(scan_error("this keyword is not allowed in a template expression", at));
            }
        } else if after_dot {
            return Err(scan_error("expected an attribute name", at));
        } else if t.kind == T_NUMBER {
            if !expect_operand {
                return Err(scan_error("invalid syntax: unexpected number", at));
            }
            expect_operand = false;
        } else if t.kind == T_STRING {
            if !expect_operand && prev_kind != T_STRING {
                return Err(scan_error("invalid syntax: unexpected string", at));
            }
            expect_operand = false;
        } else {
            let op = t.op;
            if op == OP_LPAR || op == OP_LSQB || op == OP_LBRACE {
                if op == OP_LBRACE && !expect_operand {
                    return Err(scan_error("invalid syntax: unexpected '{'", at));
                }
                stack.push(op);
                expect_operand = true;
            } else if op == OP_RPAR || op == OP_RSQB || op == OP_RBRACE {
                let open = if op == OP_RPAR {
                    OP_LPAR
                } else if op == OP_RSQB {
                    OP_LSQB
                } else {
                    OP_LBRACE
                };
                if stack.len() == 0 || stack[stack.len() - 1] != open {
                    return Err(scan_error("unmatched closing bracket", at));
                }
                let empty_ok = prev_kind == T_OP && (prev_op == open || prev_op == OP_COMMA || (op
                    == OP_RSQB && prev_op == OP_COLON));
                if expect_operand && !empty_ok {
                    return Err(scan_error("invalid syntax: unexpected closing bracket", at));
                }
                stack.pop();
                if for_depth > 0 && stack.len() < for_depth {
                    return Err(scan_error("invalid syntax: comprehension without 'in'", at));
                }
                expect_operand = false;
            } else if op == OP_COMMA {
                if expect_operand {
                    return Err(scan_error("invalid syntax: unexpected ','", at));
                }
                expect_operand = true;
            } else if op == OP_COLON {
                if stack.len() == 0 {
                    return Err(scan_error("invalid syntax: unexpected ':'", at));
                }
                let top = stack[stack.len() - 1];
                if top == OP_LBRACE && expect_operand {
                    return Err(scan_error("invalid syntax: unexpected ':'", at));
                }
                if top != OP_LSQB && top != OP_LBRACE {
                    return Err(scan_error("invalid syntax: unexpected ':'", at));
                }
                expect_operand = true;
            } else if op == OP_DOT {
                if expect_operand {
                    return Err(scan_error("invalid syntax: unexpected '.'", at));
                }
                after_dot = true;
            } else if op == OP_EQUAL {
                if !kwarg_pending {
                    return Err(scan_error("assignment is not allowed in an expression", at));
                }
                kwarg_pending = false;
                expect_operand = true;
            } else if op == OP_WALRUS {
                if !walrus_pending {
                    return Err(scan_error("invalid syntax: unexpected ':='", at));
                }
                walrus_pending = false;
                expect_operand = true;
            } else if op == OP_PLUSMINUS {
                expect_operand = true;
            } else if op == OP_TILDE {
                if !expect_operand {
                    return Err(scan_error("invalid syntax: unexpected '~'", at));
                }
            } else if op == OP_STAR {
                if expect_operand && stack.len() == 0 {
                    return Err(scan_error("invalid syntax: unexpected '*'", at));
                }
                expect_operand = true;
            } else {
                if expect_operand {
                    return Err(scan_error("invalid syntax: unexpected operator", at));
                }
                expect_operand = true;
            }
        }
        prev_kind = t.kind;
        prev_op = t.op;
        k = k + 1;
    }
    let at_end = toks[to - 1].end;
    if expect_operand || after_dot || need_in {
        return Err(scan_error("invalid syntax: unexpected end of expression", at_end));
    }
    if stack.len() > 0 {
        return Err(scan_error("invalid syntax: unclosed bracket", at_end));
    }
    if for_depth > 0 {
        return Err(scan_error("invalid syntax: comprehension without 'in'", at_end));
    }
    Ok(Found { used, assigned, targets })
}

// ---------------------------------------------------------------------------
// Building the result
// ---------------------------------------------------------------------------

/// The token `chars[start..end]`, with the line and column of its start.
fn make_token(
    chars: &Vec<char>,
    lines: &Vec<usize>,
    cols: &Vec<usize>,
    start: usize,
    end: usize,
) -> (t: Token)
    requires
        start <= end <= chars@.len(),
        lines@.len() == chars@.len() + 1,
        cols@.len() == chars@.len() + 1,
        forall|i: int| 0 <= i <= chars@.len() ==> lines@[i] == line_at(chars@, i),
        forall|i: int| 0 <= i <= chars@.len() ==> cols@[i] == col_at(chars@, i),
    ensures
        token_in(t, chars@),
        t.start_index == start,
        t.end_index == end,
{
    Token {
        content: substring(chars, start, end),
        start_index: start,
        end_index: end,
        line: lines[start],
        col: cols[start],
    }
}

/// The characters `cs[x.0..x.1]`.
pub open spec fn range_text(cs: Seq<char>, x: (usize, usize)) -> Seq<char> {
    cs.subrange(x.0 as int, x.1 as int)
}

/// Whether `chars[a..b]` and `chars[c..d]` hold the same name.
fn same_name(chars: &Vec<char>, x: (usize, usize), y: (usize, usize)) -> (r: bool)
    requires
        x.0 <= x.1 <= chars@.len(),
        y.0 <= y.1 <= chars@.len(),
    ensures
        r == (range_text(chars@, x) == range_text(chars@, y)),
{
    if x.1 - x.0 != y.1 - y.0 {
        proof {
            assert(range_text(chars@, x).len() != range_text(chars@, y).len());
        }
        return false;
    }
    let len = x.1 - x.0;
    let mut i: usize = 0;
    while i < len
        invariant
            x.0 <= x.1 <= chars@.len(),
            y.0 <= y.1 <= chars@.len(),
            len == x.1 - x.0 == y.1 - y.0,
            i <= len,
            forall|k: int|
                0 <= k < i ==> #[trigger] range_text(chars@, x)[k] == range_text(chars@, y)[k],
        decreases len - i,
    {
        if chars[x.0 + i] != chars[y.0 + i] {
            proof {
                assert(range_text(chars@, x)[i as int] != range_text(chars@, y)[i as int]);
            }
            return false;
        }
        i = i + 1;
    }
    proof {
        assert(range_text(chars@, x) =~= range_text(chars@, y));
    }
    true
}

/// Whether the name `x` equals one of the names in `names`.
fn name_in(chars: &Vec<char>, x: (usize, usize), names: &Vec<(usize, usize)>) -> (r: bool)
    requires
        x.0 <= x.1 <= chars@.len(),
        ranges_in(names@, chars@.len() as int),
    ensures
        r == exists|k: int|
            0 <= k < names@.len() && range_text(chars@, #[trigger] names@[k]) == range_text(
                chars@,
                x,
            ),
        names@.len() == 0 ==> !r,
{
    let mut i: usize = 0;
    while i < names.len()
        invariant
            x.0 <= x.1 <= chars@.len(),
            ranges_in(names@, chars@.len() as int),
            i <= names@.len(),
            forall|k: int|
                0 <= k < i ==> range_text(chars@, #[trigger] names@[k]) != range_text(chars@, x),
        decreases names@.len() - i,
    {
        if same_name(chars, x, names[i]) {
            return true;
        }
        i = i + 1;
    }
    false
}

/// The names of `ns` that are not in `exclude`, each once, where it first
/// occurs.
pub open spec fn fresh_names(ns: Seq<Seq<char>>, exclude: Seq<Seq<char>>) -> Seq<Seq<char>>
    decreases ns.len(),
{
    if ns.len() == 0 {
        Seq::empty()
    } else {
        let k = fresh_names(ns.drop_last(), exclude);
        if k.contains(ns.last()) || exclude.contains(ns.last()) {
            k
        } else {
            k.push(ns.last())
        }
    }
}

/// The names `fresh_names` keeps are those of `ns` that `exclude` does not
/// hold: each of them is kept, and nothing else is.
pub proof fn lemma_fresh_names(ns: Seq<Seq<char>>, exclude: Seq<Seq<char>>)
    ensures
        forall|k: int|
            0 <= k < ns.len() && !exclude.contains(#[trigger] ns[k]) ==> fresh_names(
                ns,
                exclude,
            ).contains(ns[k]),
        forall|m: int|
            0 <= m < fresh_names(ns, exclude).len() ==> ns.contains(
                #[trigger] fresh_names(ns, exclude)[m],
            ) && !exclude.contains(fresh_names(ns, exclude)[m]),
    decreases ns.len(),
{
    if ns.len() > 0 {
        let p = ns.drop_last();
        lemma_fresh_names(p, exclude);
        let k0 = fresh_names(p, exclude);
        let r = fresh_names(ns, exclude);
        assert forall|k: int| 0 <= k < ns.len() && !exclude.contains(#[trigger] ns[k]) implies r.contains(
            ns[k],
        ) by {
            if k < p.len() {
                assert(p[k] == ns[k]);
                assert(k0.contains(p[k]));
                let i = choose|i: int| 0 <= i < k0.len() && k0[i] == p[k];
                assert(r[i] == k0[i]);
            } else if !k0.contains(ns.last()) {
                assert(r[k0.len() as int] == ns[k]);
            }
        }
        assert forall|m: int| 0 <= m < r.len() implies ns.contains(#[trigger] r[m]) && !exclude.contains(
            r[m],
        ) by {
            if m < k0.len() {
                assert(r[m] == k0[m]);
                let i = choose|i: int| 0 <= i < p.len() && p[i] == k0[m];
                assert(ns[i] == p[i]);
            } else {
                assert(r[m] == ns[ns.len() - 1]);
            }
        }
    }
}

/// The text of each range of `rs`.
pub open spec fn range_texts(cs: Seq<char>, rs: Seq<(usize, usize)>) -> Seq<Seq<char>> {
    rs.map_values(|x: (usize, usize)| range_text(cs, x))
}

/// The text of each token of `ts`.
pub open spec fn token_texts(ts: Seq<Token>) -> Seq<Seq<char>> {
    ts.map_values(|t: Token| t.content@)
}

/// Whether the name `x` is among `names` is whether its text is among theirs.
proof fn lemma_name_in_texts(cs: Seq<char>, x: (usize, usize), names: Seq<(usize, usize)>)
    ensures
        (exists|k: int| 0 <= k < names.len() && range_text(cs, #[trigger] names[k]) == range_text(cs, x))
            <==> range_texts(cs, names).contains(range_text(cs, x)),
{
    if range_texts(cs, names).contains(range_text(cs, x)) {
        let k = choose|k: int| 0 <= k < range_texts(cs, names).len() && range_texts(cs, names)[k]
            == range_text(cs, x);
        assert(range_text(cs, names[k]) == range_text(cs, x));
    }
    if exists|k: int| 0 <= k < names.len() && range_text(cs, #[trigger] names[k]) == range_text(cs, x) {
        let k = choose|k: int| 0 <= k < names.len() && range_text(cs, #[trigger] names[k]) == range_text(cs, x);
        assert(range_texts(cs, names)[k] == range_text(cs, x));
    }
}

/// The tokens of the names in `used` that are neither assigned nor loop
/// targets, each name once (first occurrence kept).
fn external_names(
    chars: &Vec<char>,
    lines: &Vec<usize>,
    cols: &Vec<usize>,
    found: &Found,
) -> (r: Vec<Token>)
    requires
        lines@.len() == chars@.len() + 1,
        cols@.len() == chars@.len() + 1,
        forall|i: int| 0 <= i <= chars@.len() ==> lines@[i] == line_at(chars@, i),
        forall|i: int| 0 <= i <= chars@.len() ==> cols@[i] == col_at(chars@, i),
        ranges_in(found.used@, chars@.len() as int),
        ranges_in(found.assigned@, chars@.len() as int),
        ranges_in(found.targets@, chars@.len() as int),
    ensures
        tokens_in(r@, chars@),
        plain_ranges(chars@, found.used@) ==> all_plain_names(r@),
        found.used@.len() == 1 && found.assigned@.len() == 0 && found.targets@.len() == 0 ==> (
        r@.len() == 1 && r@[0].start_index == found.used@[0].0 && r@[0].end_index
            == found.used@[0].1),
        token_texts(r@) == fresh_names(
            range_texts(chars@, found.used@),
            range_texts(chars@, found.assigned@) + range_texts(chars@, found.targets@),
        ),
{
    let ghost single = found.used@.len() == 1 && found.assigned@.len() == 0
        && found.targets@.len() == 0;
    let ghost excl = range_texts(chars@, found.assigned@) + range_texts(chars@, found.targets@);
    proof {
        assert(range_texts(chars@, found.used@.take(0)) =~= Seq::<Seq<char>>::empty());
        assert(token_texts(Seq::<Token>::empty()) =~= Seq::<Seq<char>>::empty());
        assert(range_texts(chars@, Seq::<(usize, usize)>::empty()) =~= Seq::<Seq<char>>::empty());
    }
    let mut kept: Vec<(usize, usize)> = Vec::new();
    let mut out: Vec<Token> = Vec::new();
    let mut i: usize = 0;
    while i < found.used.len()
        invariant
            lines@.len() == chars@.len() + 1,
            cols@.len() == chars@.len() + 1,
            forall|j: int| 0 <= j <= chars@.len() ==> lines@[j] == line_at(chars@, j),
            forall|j: int| 0 <= j <= chars@.len() ==> cols@[j] == col_at(chars@, j),
            ranges_in(found.used@, chars@.len() as int),
            ranges_in(found.assigned@, chars@.len() as int),
            ranges_in(found.targets@, chars@.len() as int),
            ranges_in(kept@, chars@.len() as int),
            i <= found.used@.len(),
            tokens_in(out@, chars@),
            plain_ranges(chars@, found.used@) ==> all_plain_names(out@),
            single == (found.used@.len() == 1 && found.assigned@.len() == 0
                && found.targets@.len() == 0),
            single && i == 0 ==> kept@.len() == 0 && out@.len() == 0,
            single && i == 1 ==> out@.len() == 1 && out@[0].start_index == found.used@[0].0
                && out@[0].end_index == found.used@[0].1,
            excl == range_texts(chars@, found.assigned@) + range_texts(chars@, found.targets@),
            token_texts(out@) == fresh_names(range_texts(chars@, found.used@.take(i as int)), excl),
            range_texts(chars@, kept@) == token_texts(out@),
        decreases found.used@.len() - i,
    {
        let x = found.used[i];
        let ghost tx = range_text(chars@, x);
        let ghost before_out = out@;
        let ghost before_kept = kept@;
        proof {
            let ns = range_texts(chars@, found.used@.take(i + 1));
            assert(ns.drop_last() =~= range_texts(chars@, found.used@.take(i as int)));
            assert(ns.last() == tx);
            lemma_name_in_texts(chars@, x, found.assigned@);
            lemma_name_in_texts(chars@, x, found.targets@);
            lemma_name_in_texts(chars@, x, kept@);
            assert(excl.contains(tx) <==> (range_texts(chars@, found.assigned@).contains(tx)
                || range_texts(chars@, found.targets@).contains(tx))) by {
                let a = range_texts(chars@, found.assigned@);
                let b = range_texts(chars@, found.targets@);
                if excl.contains(tx) {
                    let k = choose|k: int| 0 <= k < excl.len() && excl[k] == tx;
                    if k < a.len() {
                        assert(a[k] == tx);
                    } else {
                        assert(b[k - a.len()] == tx);
                    }
                }
                if a.contains(tx) {
                    let k = choose|k: int| 0 <= k < a.len() && a[k] == tx;
                    assert(excl[k] == tx);
                }
                if b.contains(tx) {
                    let k = choose|k: int| 0 <= k < b.len() && b[k] == tx;
                    assert(excl[a.len() + k] == tx);
                }
            }
        }
        if !name_in(chars, x, &found.assigned) && !name_in(chars, x, &found.targets) && !name_in(
            chars,
            x,
            &kept,
        ) {
            kept.push(x);
            let t = make_token(chars, lines, cols, x.0, x.1);
            out.push(t);
            proof {
                assert(range_texts(chars@, kept@) =~= range_texts(chars@, before_kept).push(tx));
                assert(token_texts(out@) =~= token_texts(before_out).push(tx));
            }
        }
        i = i + 1;
    }
    proof {
        assert(found.used@.take(found.used@.len() as int) =~= found.used@);
    }
    out
}

/// Tokens for every range of `rs`.
fn range_tokens(
    chars: &Vec<char>,
    lines: &Vec<usize>,
    cols: &Vec<usize>,
    rs: &Vec<(usize, usize)>,
) -> (r: Vec<Token>)
    requires
        lines@.len() == chars@.len() + 1,
        cols@.len() == chars@.len() + 1,
        forall|i: int| 0 <= i <= chars@.len() ==> lines@[i] == line_at(chars@, i),
        forall|i: int| 0 <= i <= chars@.len() ==> cols@[i] == col_at(chars@, i),
        ranges_in(rs@, chars@.len() as int),
    ensures
        tokens_in(r@, chars@),
        r@.len() == rs@.len(),
        forall|i: int|
            0 <= i < rs@.len() ==> (#[trigger] r@[i]).start_index == rs@[i].0 && r@[i].end_index
                == rs@[i].1,
        plain_ranges(chars@, rs@) ==> all_plain_names(r@),
{
    let mut out: Vec<Token> = Vec::new();
    let mut i: usize = 0;
    while i < rs.len()
        invariant
            lines@.len() == chars@.len() + 1,
            cols@.len() == chars@.len() + 1,
            forall|j: int| 0 <= j <= chars@.len() ==> lines@[j] == line_at(chars@, j),
            forall|j: int| 0 <= j <= chars@.len() ==> cols@[j] == col_at(chars@, j),
            ranges_in(rs@, chars@.len() as int),
            i <= rs@.len(),
            out@.len() == i,
            tokens_in(out@, chars@),
            forall|j: int|
                0 <= j < i ==> (#[trigger] out@[j]).start_index == rs@[j].0 && out@[j].end_index
                    == rs@[j].1,
            plain_ranges(chars@, rs@) ==> all_plain_names(out@),
        decreases rs@.len() - i,
    {
        let t = make_token(chars, lines, cols, rs[i].0, rs[i].1);
        out.push(t);
        i = i + 1;
    }
    out
}

/// An error message naming the line and column of character `at`.
fn located_message(chars: &Vec<char>, lines: &Vec<usize>, cols: &Vec<usize>, e: ScanError) -> (r:
    String)
    requires
        lines@.len() == chars@.len() + 1,
        cols@.len() == chars@.len() + 1,
    ensures
        has_prefix(r@, "Python expression error at line "@),
{
    let at = if e.at <= chars.len() {
        e.at
    } else {
        chars.len()
    };
    let mut m = owned("Python expression error at line ");
    push_decimal(&mut m, lines[at]);
    push_str(&mut m, ", column ");
    push_decimal(&mut m, cols[at]);
    push_str(&mut m, ": ");
    push_str(&mut m, e.message.as_str());
    proof {
        let pre = "Python expression error at line "@;
        assert(m@.subrange(0, pre.len() as int) =~= pre);
    }
    m
}

impl LangImpl for PythonLang {
    /// Every variable reported, read or assigned, is a name that is not a
    /// keyword. A single such name, with only whitespace around it, is always
    /// accepted, and reads that name; so are names joined by operators of one
    /// character, such as `a + b * c`, which read their names, each once, in
    /// the order they first occur (`chain_vars`). An error message starts with
    /// `Python expression error at line L, column C: `.
    fn parse_expression(&self, source: &str) -> (r: Result<ParseExprResult, String>)
        ensures
            operator_chain(source@) ==> (r matches Ok(res) && token_texts(res.used_vars@)
                == chain_vars(source@) && res.assigned_vars@.len() == 0 && res.comments@.len()
                == 0),
            r matches Ok(res) ==> all_plain_names(res.used_vars@) && all_plain_names(
                res.assigned_vars@,
            ),
            forall|a: int, b: int|
                #[trigger] padded_name(source@, a, b) ==> (r matches Ok(res)
                    && res.used_vars@.len() == 1 && res.used_vars@[0].start_index == a
                    && res.used_vars@[0].end_index == b && res.assigned_vars@.len() == 0
                    && res.comments@.len() == 0),
            r matches Err(m) ==> has_prefix(m@, "Python expression error at line "@),
            forall|t: int| #[trigger] loop_split(source@, t) ==> r is Ok,
    {
        let chars = str_to_chars(source);
        let (lines, cols) = line_col_table(&chars);
        let ghost split = exists|t: int| loop_split(chars@, t);
        let ghost t: int = if split {
            choose|t: int| loop_split(chars@, t)
        } else {
            0
        };
        let (toks, comment_ranges) = match tokenize(&chars) {
            Ok(x) => x,
            Err(e) => {
                return Err(located_message(&chars, &lines, &cols, e));
            },
        };
        proof {
            if split {
                lemma_loop_split_chars(chars@, t);
                assert(chars@.subrange(toks@[0].start as int, toks@[0].end as int) =~= chars@.subrange(0, t));
                assert(chars@.subrange(toks@[1].start as int, toks@[1].end as int) =~= chars@.subrange(
                    t + 1,
                    t + 3,
                ));
                assert(chars@.subrange(toks@[2].start as int, toks@[2].end as int) =~= chars@.subrange(
                    t + 4,
                    chars@.len() as int,
                ));
                assert(name_in_name(chars@, toks@, 0, 3));
            }
        }
        let ghost pad = exists|a: int, b: int| padded_name(chars@, a, b);
        let ghost (pa, pb): (int, int) = if pad {
            choose|a: int, b: int| padded_name(chars@, a, b)
        } else {
            (0, 0)
        };
        proof {
            assert forall|a: int, b: int| #[trigger] padded_name(source@, a, b) implies pad && a
                == pa && b == pb by {
                if padded_name(chars@, a, b) {
                    lemma_padded_unique(chars@, pa, pb, a, b);
                }
            }
            if pad {
                assert(padded_name(chars@, pa, pb));
            }
        }
        let found = match check_tokens(&chars, &toks, 0, toks.len()) {
            Ok(f) => f,
            Err(e) => {
                return Err(located_message(&chars, &lines, &cols, e));
            },
        };
        let used_vars = external_names(&chars, &lines, &cols, &found);
        proof {
            if operator_chain(chars@) {
                lemma_chain_names(chars@, toks@);
                assert(range_texts(chars@, found.assigned@) + range_texts(chars@, found.targets@)
                    =~= Seq::<Seq<char>>::empty());
            }
        }
        let assigned_vars = range_tokens(&chars, &lines, &cols, &found.assigned);
        let mut comments: Vec<Comment> = Vec::new();
        let mut i: usize = 0;
        while i < comment_ranges.len()
            invariant
                lines@.len() == chars@.len() + 1,
                cols@.len() == chars@.len() + 1,
                forall|j: int| 0 <= j <= chars@.len() ==> lines@[j] == line_at(chars@, j),
                forall|j: int| 0 <= j <= chars@.len() ==> cols@[j] == col_at(chars@, j),
                ranges_in(comment_ranges@, chars@.len() as int),
                i <= comment_ranges@.len(),
                comments@.len() == i,
                comments_in(comments@, chars@),
            decreases comment_ranges@.len() - i,
        {
            let (s, e) = comment_ranges[i];
            let value_start = if s < e {
                s + 1
            } else {
                s
            };
            let c = Comment {
                token: make_token(&chars, &lines, &cols, s, e),
                value: make_token(&chars, &lines, &cols, value_start, e),
            };
            comments.push(c);
            i = i + 1;
        }
        Ok(ParseExprResult { used_vars, assigned_vars, comments })
    }

    /// Every loop variable is a name that is not a keyword. `target in
    /// iterable` with two plain names is always accepted, and gives the
    /// target.
    fn parse_forloop_expression(&self, source: &str) -> (r: Result<Vec<Token>, String>)
        ensures
            r matches Ok(vars) ==> all_plain_names(vars@),
            forall|t: int|
                #[trigger] loop_split(source@, t) ==> (r matches Ok(vars) && vars@.len() == 1
                    && vars@[0].start_index == 0 && vars@[0].end_index == t),
    {
        let chars = str_to_chars(source);
        let (lines, cols) = line_col_table(&chars);
        let ghost split = exists|t: int| loop_split(chars@, t);
        let ghost t: int = if split {
            choose|t: int| loop_split(chars@, t)
        } else {
            0
        };
        proof {
            if split {
                lemma_loop_split_chars(chars@, t);
            }
            assert forall|u: int| #[trigger] loop_split(chars@, u) implies split && u == t by {
                if loop_split(chars@, u) {
                    lemma_loop_split_unique(chars@, t, u);
                }
            }
        }
        let (toks, _comments) = match tokenize(&chars) {
            Ok(x) => x,
            Err(e) => {
                return Err(located_message(&chars, &lines, &cols, e));
            },
        };
        proof {
            if split {
                assert(loop_split(chars@, t));
                assert(chars@.subrange(0, t) =~= chars@.subrange(toks@[0].start as int, toks@[0].end as int));
                assert(chars@.subrange(t + 4, chars@.len() as int) =~= chars@.subrange(
                    toks@[2].start as int,
                    toks@[2].end as int,
                ));
            }
        }
        // The loop targets run up to the first `in` outside brackets.
        let mut depth: usize = 0;
        let mut k: usize = 0;
        let mut targets: Vec<(usize, usize)> = Vec::new();
        let mut found_in = false;
        let mut expect_target = true;
        while k < toks.len() && !found_in
            invariant
                k <= toks@.len(),
                chars@.len() <= MAX_EXPR_LEN,
                lines@.len() == chars@.len() + 1,
                cols@.len() == chars@.len() + 1,
                toks_in(toks@, chars@.len() as int),
                ranges_in(targets@, chars@.len() as int),
                names_shaped(toks@, chars@),
                plain_ranges(chars@, targets@),
                found_in ==> k >= 1,
                chars@ == source@,
                forall|u: int| #[trigger] loop_split(chars@, u) ==> split && u == t,
                split ==> {
                    &&& toks@.len() == 3
                    &&& name_tok(toks@[0], 0, t)
                    &&& name_tok(toks@[1], t + 1, t + 3)
                    &&& name_tok(toks@[2], t + 4, chars@.len() as int)
                    &&& !python_keyword(chars@.subrange(0, t))
                    &&& chars@.subrange(t + 1, t + 3) == seq!['i', 'n']
                    &&& depth == 0
                    &&& if k == 0 {
                        !found_in && targets@.len() == 0 && expect_target
                    } else if k == 1 {
                        !found_in && targets@ == seq![(0usize, t as usize)] && !expect_target
                    } else {
                        k == 2 && found_in && targets@ == seq![(0usize, t as usize)]
                    }
                },
            decreases toks@.len() - k, if found_in { 0nat } else { 1nat },
        {
            let t = &toks[k];
            if t.kind == T_NAME {
                let kw = keyword_kind(&chars, t.start, t.end);
                if kw == KW_IN && depth == 0 {
                    found_in = true;
                } else if kw != KW_NONE || !expect_target {
                    return Err(located_message(
                        &chars,
                        &lines,
                        &cols,
                        scan_error("invalid loop target", t.start),
                    ));
                } else {
                    proof {
                        assert(name_shaped(chars@.subrange(t.start as int, t.end as int)));
                    }
                    targets.push((t.start, t.end));
                    expect_target = false;
                }
            } else if t.kind == T_OP && (t.op == OP_LPAR || t.op == OP_LSQB) && expect_target {
                if depth == usize::MAX {
                    return Err(owned("loop targets nest too deeply"));
                }
                depth = depth + 1;
            } else if t.kind == T_OP && (t.op == OP_RPAR || t.op == OP_RSQB) && depth > 0
                && !expect_target {
                depth = depth - 1;
            } else if t.kind == T_OP && t.op == OP_COMMA && !expect_target {
                expect_target = true;
            } else if t.kind == T_OP && t.op == OP_STAR && expect_target {
            } else {
                return Err(located_message(
                    &chars,
                    &lines,
                    &cols,
                    scan_error("invalid loop target", t.start),
                ));
            }
            k = k + 1;
        }
        if !found_in || targets.len() == 0 {
            return Err(owned("a for-loop expression must have the form `target in iterable`"));
        }
        match check_tokens(&chars, &toks, k, toks.len()) {
            Ok(_) => {},
            Err(e) => {
                return Err(located_message(&chars, &lines, &cols, e));
            },
        }
        Ok(range_tokens(&chars, &lines, &cols, &targets))
    }

    fn compile(&self, args: Vec<LangSpecArgument>) -> (r: Result<String, String>)
        ensures
            r matches Ok(code) && code@ == python_module(args@),
    {
        let mut out = owned("def generate_template():\n    body = [\n");
        let mut i: usize = 0;
        let ghost prefix = out@;
        proof {
            reveal_strlit("def generate_template():\n    body = [\n");
        }
        while i < args.len()
            invariant
                i <= args@.len(),
                out@ == python_module_head() + python_body_lines(args@.take(i as int)),
            decreases args@.len() - i,
        {
            push_str(&mut out, "        ");
            emit_arg(&mut out, &args[i]);
            push_str(&mut out, ",\n");
            proof {
                reveal_strlit("        ");
                reveal_strlit(",\n");
                assert(args@.take(i + 1).drop_last() =~= args@.take(i as int));
                assert(out@ =~= python_module_head() + python_body_lines(args@.take(i + 1)));
            }
            i = i + 1;
        }
        push_str(&mut out, "    ]\n    return body\n");
        proof {
            reveal_strlit("    ]\n    return body\n");
            assert(args@.take(i as int) =~= args@);
        }
        Ok(out)
    }
}

// ---------------------------------------------------------------------------
// Code generation
// ---------------------------------------------------------------------------

/// `"def generate_template():\n    body = [\n"`
pub open spec fn python_module_head() -> Seq<char> {
    "def generate_template():\n    body = [\n"@
}

/// One `        <item>,\n` line per item.
pub open spec fn python_body_lines(items: Seq<LangSpecArgument>) -> Seq<char>
    decreases items.len(),
{
    if items.len() == 0 {
        Seq::empty()
    } else {
        python_body_lines(items.drop_last()) + "        "@ + python_literal(items.last()) + ",\n"@
    }
}

/// The Python module that builds the body list `items`.
pub open spec fn python_module(items: Seq<LangSpecArgument>) -> Seq<char> {
    python_module_head() + python_body_lines(items) + "    ]\n    return body\n"@
}

/// `s` with `\` and `"` escaped by a backslash.
pub open spec fn escape_py(s: Seq<char>) -> Seq<char>
    decreases s.len(),
{
    if s.len() == 0 {
        Seq::empty()
    } else {
        let c = s.last();
        escape_py(s.drop_last()) + if c == '\\' || c == '"' {
            seq!['\\', c]
        } else {
            seq![c]
        }
    }
}

/// What Python makes of the backslash escape `\c` in a string literal:
/// `c` itself for a backslash or a quote; nothing plain (`None`) for an
/// escape that stands for another character (`\n`, `\t`, `\x..`, an octal
/// digit, a line break, ...); else the backslash and `c` as written.
pub open spec fn py_escape_meaning(c: char) -> Option<Seq<char>> {
    if c == '\\' || c == '"' || c == '\'' {
        Some(seq![c])
    } else if c == 'n' || c == 't' || c == 'r' || c == 'a' || c == 'b' || c == 'f' || c == 'v'
        || c == 'x' || c == 'N' || c == 'u' || c == 'U' || ('0' <= c && c <= '7') || c == '\n'
        || c == '\r' {
        None
    } else {
        Some(seq!['\\', c])
    }
}

/// The text Python reads from the body `t` of a string literal, left to
/// right: a backslash escape as `py_escape_meaning` says, any other
/// character as itself; `None` where a bare double quote could end the
/// literal, a backslash ends it, or an escape stands for another character.
pub open spec fn py_read(t: Seq<char>) -> Option<Seq<char>>
    decreases t.len(),
{
    if t.len() == 0 {
        Some(Seq::empty())
    } else if t[0] == '"' {
        None
    } else if t[0] == '\\' {
        if t.len() < 2 {
            None
        } else {
            match (py_escape_meaning(t[1]), py_read(t.subrange(2, t.len() as int))) {
                (Some(a), Some(b)) => Some(a + b),
                _ => None,
            }
        }
    } else {
        match py_read(t.subrange(1, t.len() as int)) {
            Some(b) => Some(seq![t[0]] + b),
            None => None,
        }
    }
}

/// Escaping text piece by piece is escaping it whole.
proof fn lemma_escape_py_concat(a: Seq<char>, b: Seq<char>)
    ensures
        escape_py(a + b) == escape_py(a) + escape_py(b),
    decreases b.len(),
{
    if b.len() == 0 {
        assert(a + b =~= a);
        assert(escape_py(a) + escape_py(b) =~= escape_py(a));
    } else {
        lemma_escape_py_concat(a, b.drop_last());
        assert((a + b).drop_last() =~= a + b.drop_last());
        assert((a + b).last() == b.last());
        let c = b.last();
        let e: Seq<char> = if c == '\\' || c == '"' {
            seq!['\\', c]
        } else {
            seq![c]
        };
        assert(escape_py(a) + escape_py(b.drop_last()) + e =~= escape_py(a) + (escape_py(
            b.drop_last(),
        ) + e));
    }
}

/// Python reads back, from the escaped text of a string literal, exactly the
/// text that was escaped: every string survives the round trip.
pub proof fn lemma_escape_py_reads_back(s: Seq<char>)
    ensures
        py_read(escape_py(s)) == Some(s),
    decreases s.len(),
{
    if s.len() > 0 {
        let c = s[0];
        let rest = s.subrange(1, s.len() as int);
        assert(s =~= seq![c] + rest);
        lemma_escape_py_concat(seq![c], rest);
        assert(seq![c].drop_last() =~= Seq::<char>::empty());
        assert(escape_py(Seq::<char>::empty()) =~= Seq::<char>::empty());
        lemma_escape_py_reads_back(rest);
        let t = escape_py(s);
        if c == '\\' || c == '"' {
            assert(escape_py(seq![c]) =~= seq!['\\', c]);
            assert(t.subrange(2, t.len() as int) =~= escape_py(rest));
            assert(seq![c] + rest =~= s);
        } else {
            assert(escape_py(seq![c]) =~= seq![c]);
            assert(t.subrange(1, t.len() as int) =~= escape_py(rest));
            assert(seq![c] + rest =~= s);
        }
    } else {
        assert(escape_py(s) =~= Seq::<char>::empty());
    }
}

/// The literal of an `UnsafeString` is its text between triple quotes,
/// escaped so that Python reads the text back unchanged.
pub proof fn lemma_unsafe_literal_reads_back(s: String)
    ensures
        exists|body: Seq<char>|
            python_literal(LangSpecArgument::UnsafeString(s)) == "\"\"\""@ + body + "\"\"\""@
                && #[trigger] py_read(body) == Some(s@),
{
    lemma_escape_py_reads_back(s@);
    assert(py_read(escape_py(s@)) == Some(s@));
}

/// The items of `items` as Python literals separated by `, `.
pub open spec fn python_joined(items: Seq<LangSpecArgument>) -> Seq<char>
    decreases items, 0nat,
{
    if items.len() == 0 {
        Seq::empty()
    } else if items.len() == 1 {
        python_literal(items[0])
    } else {
        python_joined(items.subrange(0, items.len() - 1)) + ", "@ + python_literal(
            items[items.len() - 1],
        )
    }
}

/// The Python source of one argument.
pub open spec fn python_literal(a: LangSpecArgument) -> Seq<char>
    decreases a, 1nat,
{
    match a {
        LangSpecArgument::Variable(s) => s@,
        LangSpecArgument::UnsafeString(s) => "\"\"\""@ + escape_py(s@) + "\"\"\""@,
        LangSpecArgument::SafeString(s) => seq!['"'] + s@ + seq!['"'],
        LangSpecArgument::Int(n) => decimal(n as nat),
        LangSpecArgument::Bool(b) => if b {
            "True"@
        } else {
            "False"@
        },
        LangSpecArgument::Tuple(v) => seq!['('] + python_joined(v@) + if v@.len() == 1 {
            seq![',', ')']
        } else {
            seq![')']
        },
        LangSpecArgument::List(v) => seq!['['] + python_joined(v@) + seq![']'],
        LangSpecArgument::Struct(st) => st.name@ + seq!['('] + python_joined(st.arguments@) + seq![
            ')',
        ],
    }
}

/// Appends `s` with `\` and `"` escaped.
fn push_escaped_py(out: &mut String, s: &str)
    ensures
        final(out)@ == old(out)@ + escape_py(s@),
{
    let chars = str_to_chars(s);
    let mut i: usize = 0;
    while i < chars.len()
        invariant
            chars@ == s@,
            i <= chars@.len(),
            out@ == old(out)@ + escape_py(chars@.take(i as int)),
        decreases chars@.len() - i,
    {
        let c = chars[i];
        if c == '\\' || c == '"' {
            push_char(out, '\\');
        }
        push_char(out, c);
        proof {
            assert(chars@.take(i + 1).drop_last() =~= chars@.take(i as int));
            assert(out@ =~= old(out)@ + escape_py(chars@.take(i + 1)));
        }
        i = i + 1;
    }
    proof {
        assert(chars@.take(i as int) =~= chars@);
    }
}

/// Appends the items of `v` as Python literals separated by `, `.
fn emit_joined(out: &mut String, v: &Vec<LangSpecArgument>)
    ensures
        final(out)@ == old(out)@ + python_joined(v@),
    decreases v, 0nat,
{
    let mut i: usize = 0;
    while i < v.len()
        invariant
            i <= v@.len(),
            out@ == old(out)@ + python_joined(v@.take(i as int)),
        decreases v@.len() - i,
    {
        if i > 0 {
            push_str(out, ", ");
        }
        proof {
            assert(decreases_to!(v => v@));
            assert(decreases_to!(v@ => v@[i as int]));
        }
        emit_arg(out, &v[i]);
        proof {
            reveal_strlit(", ");
            assert(v@.take(i + 1).subrange(0, i as int) =~= v@.take(i as int));
            assert(out@ =~= old(out)@ + python_joined(v@.take(i + 1)));
        }
        i = i + 1;
    }
    proof {
        assert(v@.take(i as int) =~= v@);
    }
}

/// Appends the Python source of `a`.
fn emit_arg(out: &mut String, a: &LangSpecArgument)
    ensures
        final(out)@ == old(out)@ + python_literal(*a),
    decreases a, 1nat,
{
    match a {
        LangSpecArgument::Variable(s) => {
            push_str(out, s.as_str());
        },
        LangSpecArgument::UnsafeString(s) => {
            push_str(out, "\"\"\"");
            push_escaped_py(out, s.as_str());
            push_str(out, "\"\"\"");
            proof {
                reveal_strlit("\"\"\"");
            }
        },
        LangSpecArgument::SafeString(s) => {
            push_char(out, '"');
            push_str(out, s.as_str());
            push_char(out, '"');
        },
        LangSpecArgument::Int(n) => {
            push_decimal(out, *n);
        },
        LangSpecArgument::Bool(b) => {
            if *b {
                push_str(out, "True");
            } else {
                push_str(out, "False");
            }
            proof {
                reveal_strlit("True");
                reveal_strlit("False");
            }
        },
        LangSpecArgument::Tuple(v) => {
            push_char(out, '(');
            emit_joined(out, v);
            if v.len() == 1 {
                push_char(out, ',');
            }
            push_char(out, ')');
        },
        LangSpecArgument::List(v) => {
            push_char(out, '[');
            emit_joined(out, v);
            push_char(out, ']');
        },
        LangSpecArgument::Struct(st) => {
            push_str(out, st.name.as_str());
            push_char(out, '(');
            emit_joined(out, &st.arguments);
            push_char(out, ')');
        },
    }
}

} // verus!
