//! Dependency records: collapsing the records collected during a render to
//! their distinct set, keeping the order in which each was first seen
//! (document order).

use vstd::prelude::*;

use crate::text::{decimal, digit_char, owned, push_decimal};

verus! {

/// A dependency record's identity: (class_id, component_id, js_vars_hash,
/// css_vars_hash).
pub type RecordKey = (String, String, Option<String>, Option<String>);

/// The distinct elements of `s`, each where it first occurs.
pub open spec fn first_seen<T>(s: Seq<T>) -> Seq<T>
    decreases s.len(),
{
    if s.len() == 0 {
        Seq::empty()
    } else {
        let d = first_seen(s.drop_last());
        if d.contains(s.last()) {
            d
        } else {
            d.push(s.last())
        }
    }
}

/// The view of an optional string.
pub open spec fn opt_view(o: Option<String>) -> Option<Seq<char>> {
    match o {
        Some(s) => Some(s@),
        None => None,
    }
}

/// The view of a record: its four fields as character sequences.
pub open spec fn record_view(r: RecordKey) -> (
    Seq<char>,
    Seq<char>,
    Option<Seq<char>>,
    Option<Seq<char>>,
) {
    (r.0@, r.1@, opt_view(r.2), opt_view(r.3))
}

/// The views of a sequence of records.
pub open spec fn record_views(s: Seq<RecordKey>) -> Seq<
    (Seq<char>, Seq<char>, Option<Seq<char>>, Option<Seq<char>>),
> {
    s.map_values(|r: RecordKey| record_view(r))
}

fn opt_eq(a: &Option<String>, b: &Option<String>) -> (r: bool)
    ensures
        r == (opt_view(*a) == opt_view(*b)),
{
    match (a, b) {
        (Some(x), Some(y)) => *x == *y,
        (None, None) => true,
        _ => false,
    }
}

/// Whether two records are the same record.
fn record_eq(a: &RecordKey, b: &RecordKey) -> (r: bool)
    ensures
        r == (record_view(*a) == record_view(*b)),
{
    a.0 == b.0 && a.1 == b.1 && opt_eq(&a.2, &b.2) && opt_eq(&a.3, &b.3)
}

/// First-seen-order dedup: the distinct records, each where it first occurs.
pub fn dedup_first_seen(records: Vec<RecordKey>) -> (r: Vec<RecordKey>)
    ensures
        record_views(r@) == first_seen(record_views(records@)),
{
    let ghost all = records@;
    let n = records.len();
    let mut out: Vec<RecordKey> = Vec::new();
    let mut i: usize = 0;
    for record in it: records
        invariant
            all == it.seq(),
            all.len() == n,
            i == it.index(),
            record_views(out@) == first_seen(record_views(all.take(i as int))),
    {
        let mut seen = false;
        let mut j: usize = 0;
        while j < out.len() && !seen
            invariant
                j <= out@.len(),
                seen == exists|k: int| 0 <= k < j && record_view(out@[k]) == record_view(record),
            decreases out@.len() - j,
        {
            if record_eq(&out[j], &record) {
                seen = true;
            }
            j = j + 1;
        }
        proof {
            let rv = record_views(out@);
            assert(record_views(all.take(i + 1)).drop_last() =~= record_views(all.take(i as int)));
            assert(record_views(all.take(i + 1)).last() == record_view(record));
            if seen {
                let k = choose|k: int| 0 <= k < j && record_view(out@[k]) == record_view(record);
                assert(rv[k] == record_view(record));
                assert(rv.contains(record_view(record)));
            } else {
                assert forall|k: int| 0 <= k < rv.len() implies rv[k] != record_view(record) by {
                    assert(rv[k] == record_view(out@[k]));
                }
                assert(!rv.contains(record_view(record)));
            }
        }
        if !seen {
            let ghost before = out@;
            out.push(record);
            proof {
                assert(record_views(out@) =~= record_views(before).push(record_view(record)));
            }
        }
        i = i + 1;
    }
    proof {
        assert(all.take(i as int) =~= all);
    }
    out
}

// ---------------------------------------------------------------------------
// Laws of first-seen dedup
// ---------------------------------------------------------------------------

/// The result holds each element of `s` and nothing else.
pub proof fn lemma_first_seen_contains<T>(s: Seq<T>, x: T)
    ensures
        first_seen(s).contains(x) <==> s.contains(x),
    decreases s.len(),
{
    if s.len() > 0 {
        let p = s.drop_last();
        lemma_first_seen_contains(p, x);
        if s.contains(x) && !p.contains(x) {
            let k = choose|k: int| 0 <= k < s.len() && s[k] == x;
            if k < p.len() {
                assert(p[k] == x);
            }
            assert(x == s.last());
        }
        if p.contains(x) {
            let k = choose|k: int| 0 <= k < p.len() && p[k] == x;
            assert(s[k] == x);
        }
        let d = first_seen(p);
        if !d.contains(s.last()) {
            assert(d.push(s.last())[d.len() as int] == s.last());
            if d.contains(x) {
                let k = choose|k: int| 0 <= k < d.len() && d[k] == x;
                assert(d.push(s.last())[k] == x);
            }
            if d.push(s.last()).contains(x) && x != s.last() {
                let k = choose|k: int| 0 <= k < d.len() + 1 && d.push(s.last())[k] == x;
                assert(d[k] == x);
            }
        }
        if x == s.last() {
            assert(s[s.len() - 1] == x);
        }
    }
}

/// The result holds no element twice.
pub proof fn lemma_first_seen_distinct<T>(s: Seq<T>)
    ensures
        forall|i: int, j: int|
            0 <= i < j < first_seen(s).len() ==> first_seen(s)[i] != first_seen(s)[j],
    decreases s.len(),
{
    if s.len() > 0 {
        let p = s.drop_last();
        lemma_first_seen_distinct(p);
        let d = first_seen(p);
        if !d.contains(s.last()) {
            let e = d.push(s.last());
            assert forall|i: int, j: int| 0 <= i < j < e.len() implies e[i] != e[j] by {
                if j == d.len() {
                    assert(e[i] == d[i]);
                    if e[i] == e[j] {
                        assert(d.contains(s.last()));
                    }
                } else {
                    assert(e[i] == d[i] && e[j] == d[j]);
                }
            }
        }
    }
}

/// A sequence without repetitions is its own first-seen dedup.
pub proof fn lemma_first_seen_of_distinct<T>(s: Seq<T>)
    requires
        forall|i: int, j: int| 0 <= i < j < s.len() ==> s[i] != s[j],
    ensures
        first_seen(s) == s,
    decreases s.len(),
{
    if s.len() > 0 {
        let p = s.drop_last();
        assert forall|i: int, j: int| 0 <= i < j < p.len() implies p[i] != p[j] by {
            assert(p[i] == s[i] && p[j] == s[j]);
        }
        lemma_first_seen_of_distinct(p);
        if p.contains(s.last()) {
            let k = choose|k: int| 0 <= k < p.len() && p[k] == s.last();
            assert(s[k] == s[s.len() - 1]);
        }
        assert(p.push(s.last()) =~= s);
    }
}

/// Deduplicating twice is deduplicating once.
pub proof fn lemma_first_seen_idempotent<T>(s: Seq<T>)
    ensures
        first_seen(first_seen(s)) == first_seen(s),
{
    lemma_first_seen_distinct(s);
    lemma_first_seen_of_distinct(first_seen(s));
}

/// Deduplicating the first part of a merge beforehand changes nothing.
pub proof fn lemma_first_seen_dedup_front<T>(a: Seq<T>, b: Seq<T>)
    ensures
        first_seen(first_seen(a) + b) == first_seen(a + b),
    decreases b.len(),
{
    if b.len() == 0 {
        assert(first_seen(a) + b =~= first_seen(a));
        assert(a + b =~= a);
        lemma_first_seen_idempotent(a);
    } else {
        let p = b.drop_last();
        lemma_first_seen_dedup_front(a, p);
        assert((first_seen(a) + b).drop_last() =~= first_seen(a) + p);
        assert((a + b).drop_last() =~= a + p);
        assert((first_seen(a) + b).last() == b.last());
        assert((a + b).last() == b.last());
    }
}

/// Deduplicating the second part of a merge beforehand changes nothing.
pub proof fn lemma_first_seen_dedup_back<T>(a: Seq<T>, b: Seq<T>)
    ensures
        first_seen(a + first_seen(b)) == first_seen(a + b),
    decreases b.len(),
{
    if b.len() == 0 {
        assert(first_seen(b) =~= b);
    } else {
        let p = b.drop_last();
        let x = b.last();
        lemma_first_seen_dedup_back(a, p);
        assert((a + b).drop_last() =~= a + p);
        assert((a + b).last() == x);
        lemma_first_seen_contains(p, x);
        lemma_first_seen_contains(a + p, x);
        if p.contains(x) {
            let k = choose|k: int| 0 <= k < p.len() && p[k] == x;
            assert((a + p)[a.len() + k] == x);
        } else {
            let q = a + first_seen(p);
            assert(a + first_seen(b) =~= q.push(x));
            assert(q.push(x).drop_last() =~= q);
        }
    }
}

/// Merging is associative: merging `a` with `b` and then with `c` gives the
/// same records, in the same order, as merging `a` with the merge of `b` and
/// `c`, both being the first-seen dedup of `a`, `b` and `c` in document order.
pub proof fn lemma_first_seen_merge_associative<T>(a: Seq<T>, b: Seq<T>, c: Seq<T>)
    ensures
        first_seen(first_seen(a + b) + c) == first_seen(a + first_seen(b + c)),
        first_seen(first_seen(a + b) + c) == first_seen(a + b + c),
{
    lemma_first_seen_dedup_front(a + b, c);
    lemma_first_seen_dedup_back(a, b + c);
    assert(a + b + c =~= a + (b + c));
}

/// The record a bubbling-up run emits for component `i`:
/// `("Cls<i>", "c<i>", None, None)`.
pub open spec fn bench_record(i: nat) -> (Seq<char>, Seq<char>, Option<Seq<char>>, Option<Seq<char>>) {
    ("Cls"@ + decimal(i), "c"@ + decimal(i), None, None)
}

/// The records of components `0..n`, in order.
pub open spec fn bench_level(n: nat) -> Seq<(Seq<char>, Seq<char>, Option<Seq<char>>, Option<Seq<char>>)> {
    Seq::new(n, |i: int| bench_record(i as nat))
}

/// `s` repeated `m` times.
pub open spec fn repeated<T>(s: Seq<T>, m: nat) -> Seq<T>
    decreases m,
{
    if m == 0 {
        Seq::empty()
    } else {
        repeated(s, (m - 1) as nat) + s
    }
}

/// The records of `n_distinct` components, each re-emitted once per level
/// over `n_levels` bubble-up levels: level after level, components in order.
pub fn bench_records(n_distinct: usize, n_levels: usize) -> (r: Vec<RecordKey>)
    ensures
        record_views(r@) == repeated(bench_level(n_distinct as nat), n_levels as nat),
{
    let ghost level = bench_level(n_distinct as nat);
    let mut r: Vec<RecordKey> = Vec::new();
    let mut l: usize = 0;
    proof {
        assert(record_views(r@) =~= repeated(level, 0));
    }
    while l < n_levels
        invariant
            l <= n_levels,
            level == bench_level(n_distinct as nat),
            record_views(r@) == repeated(level, l as nat),
        decreases n_levels - l,
    {
        let ghost before = r@;
        let mut i: usize = 0;
        proof {
            assert(repeated(level, l as nat) + level.take(0) =~= repeated(level, l as nat));
        }
        while i < n_distinct
            invariant
                i <= n_distinct,
                level == bench_level(n_distinct as nat),
                record_views(before) == repeated(level, l as nat),
                record_views(r@) == repeated(level, l as nat) + level.take(i as int),
            decreases n_distinct - i,
        {
            let mut class_id = owned("Cls");
            push_decimal(&mut class_id, i);
            let mut comp_id = owned("c");
            push_decimal(&mut comp_id, i);
            let ghost prev = r@;
            r.push((class_id, comp_id, None, None));
            proof {
                reveal_strlit("Cls");
                reveal_strlit("c");
                assert(record_view(r@.last()) == bench_record(i as nat));
                assert(record_views(r@) =~= record_views(prev).push(bench_record(i as nat)));
                assert(level.take(i + 1) =~= level.take(i as int).push(level[i as int]));
                assert(repeated(level, l as nat) + level.take(i + 1) =~= (repeated(level, l as nat)
                    + level.take(i as int)).push(level[i as int]));
            }
            i = i + 1;
        }
        proof {
            assert(level.take(n_distinct as int) =~= level);
            assert(repeated(level, (l + 1) as nat) == repeated(level, l as nat) + level);
        }
        l = l + 1;
    }
    r
}

/// The decimal digits of a number are never empty.
proof fn lemma_decimal_len(n: nat)
    ensures
        decimal(n).len() >= 1,
        n >= 10 ==> decimal(n).len() >= 2,
    decreases n,
{
    if n >= 10 {
        lemma_decimal_len(n / 10);
    }
}

/// Two numbers with the same decimal digits are the same number.
proof fn lemma_decimal_injective(n: nat, m: nat)
    requires
        decimal(n) == decimal(m),
    ensures
        n == m,
    decreases n,
{
    lemma_decimal_len(n);
    lemma_decimal_len(m);
    if n < 10 && m < 10 {
        assert(decimal(n)[0] == digit_char(n));
        assert(decimal(m)[0] == digit_char(m));
    } else if n >= 10 && m >= 10 {
        assert(decimal(n).last() == digit_char(n % 10));
        assert(decimal(m).last() == digit_char(m % 10));
        assert(decimal(n).drop_last() =~= decimal(n / 10));
        assert(decimal(m).drop_last() =~= decimal(m / 10));
        lemma_decimal_injective(n / 10, m / 10);
        assert(n == 10 * (n / 10) + n % 10);
        assert(m == 10 * (m / 10) + m % 10);
    }
}

/// The records of distinct components are distinct.
proof fn lemma_bench_level_distinct(n: nat)
    ensures
        forall|i: int, j: int|
            0 <= i < j < bench_level(n).len() ==> bench_level(n)[i] != bench_level(n)[j],
{
    assert forall|i: int, j: int| 0 <= i < j < bench_level(n).len() implies bench_level(n)[i]
        != bench_level(n)[j] by {
        let a = bench_record(i as nat);
        let b = bench_record(j as nat);
        if a == b {
            reveal_strlit("c");
            assert(a.1.subrange(1, a.1.len() as int) =~= decimal(i as nat));
            assert(b.1.subrange(1, b.1.len() as int) =~= decimal(j as nat));
            lemma_decimal_injective(i as nat, j as nat);
        }
    }
}

/// Merging records all already present changes nothing.
proof fn lemma_first_seen_absorbs<T>(a: Seq<T>, b: Seq<T>)
    requires
        forall|i: int, j: int| 0 <= i < j < a.len() ==> a[i] != a[j],
        forall|k: int| 0 <= k < b.len() ==> a.contains(#[trigger] b[k]),
    ensures
        first_seen(a + b) == a,
    decreases b.len(),
{
    if b.len() == 0 {
        assert(a + b =~= a);
        lemma_first_seen_of_distinct(a);
    } else {
        let p = b.drop_last();
        assert forall|k: int| 0 <= k < p.len() implies a.contains(#[trigger] p[k]) by {
            assert(p[k] == b[k]);
        }
        lemma_first_seen_absorbs(a, p);
        assert((a + b).drop_last() =~= a + p);
        assert((a + b).last() == b[b.len() - 1]);
    }
}

/// However many levels a run has, at least one, its records collapse to
/// those of one level.
proof fn lemma_repeated_first_seen<T>(s: Seq<T>, m: nat)
    requires
        forall|i: int, j: int| 0 <= i < j < s.len() ==> s[i] != s[j],
        m >= 1,
    ensures
        first_seen(repeated(s, m)) == s,
    decreases m,
{
    if m == 1 {
        assert(repeated(s, 0) =~= Seq::<T>::empty());
        assert(repeated(s, 1) =~= s);
        lemma_first_seen_of_distinct(s);
    } else {
        lemma_repeated_first_seen(s, (m - 1) as nat);
        lemma_first_seen_dedup_front(repeated(s, (m - 1) as nat), s);
        assert forall|k: int| 0 <= k < s.len() implies s.contains(#[trigger] s[k]) by {}
        lemma_first_seen_absorbs(s, s);
    }
}

/// Build the records of `n_distinct` components re-emitted across
/// `n_levels` bubble-up levels, collapse them to their distinct set, and
/// return how many there are: `n_distinct` when there is at least one
/// level, else none.
pub fn bench_native_collect(n_distinct: usize, n_levels: usize) -> (r: usize)
    ensures
        r == (if n_levels > 0 {
            n_distinct
        } else {
            0
        }),
{
    let records = bench_records(n_distinct, n_levels);
    let out = dedup_first_seen(records);
    proof {
        let level = bench_level(n_distinct as nat);
        assert(record_views(out@).len() == out@.len());
        if n_levels > 0 {
            lemma_bench_level_distinct(n_distinct as nat);
            lemma_repeated_first_seen(level, n_levels as nat);
        } else {
            assert(repeated(level, 0) =~= Seq::empty());
        }
    }
    out.len()
}

} // verus!
