//! Ranking: rows in the order of their distances or scores, and how two
//! rankings make one.

use std::collections::HashMap;
use vstd::prelude::*;
use vstd::string::*;
use crate::float::{f64_below, f64_lt, f64_rank, is_nan, nan, rank};
use crate::json::{float_of, json_views, lemma_array_view, json_parsed, member, parse_json, Json, JsonValue};
use crate::text::same_text;
use vstd::utf8::encode_utf8;

verus! {

/// How vectors are compared.
#[derive(Debug, Clone, Copy, PartialEq, Eq, Structural)]
pub enum Metric {
    L2,
    Cosine,
    Dot,
}

/// The metric of a name; the straight distance for a name that is not known.
pub open spec fn metric_named(name: Seq<char>) -> Metric {
    if name == "cosine"@ {
        Metric::Cosine
    } else if name == "dot"@ {
        Metric::Dot
    } else {
        Metric::L2
    }
}

/// Reads the name of a metric.
pub fn metric_of(name: &str) -> (r: Metric)
    ensures
        r == metric_named(name@),
{
    if same_text(name, "cosine") {
        Metric::Cosine
    } else if same_text(name, "dot") {
        Metric::Dot
    } else {
        Metric::L2
    }
}

/// The numbers of a list, as floats.
pub open spec fn numbers_in(items: Seq<Json>) -> Seq<u64>
    decreases items.len(),
{
    if items.len() == 0 {
        Seq::empty()
    } else {
        let prev = numbers_in(items.drop_last());
        match float_of(items.last()) {
            Some(x) => prev.push(x),
            None => prev,
        }
    }
}

/// The vector in a row's column: the numbers of a list.
pub open spec fn vector_in(row: Json, column: Seq<char>) -> Option<Seq<u64>> {
    match member(row, column) {
        Some(Json::Array(items)) => Some(numbers_in(items)),
        _ => None,
    }
}

/// The vector in a stored row's column: the numbers of a list, or of the list
/// that a text is as JSON. There is none where it has no numbers.
pub open spec fn stored_vector_in(row: Json, column: Seq<char>) -> Option<Seq<u64>> {
    let v = match member(row, column) {
        Some(Json::Array(items)) => numbers_in(items),
        Some(Json::String(s)) => match json_parsed(encode_utf8(s)) {
            Ok(Json::Array(items)) => numbers_in(items),
            _ => Seq::empty(),
        },
        _ => Seq::empty(),
    };
    if v.len() == 0 {
        None
    } else {
        Some(v)
    }
}

fn numbers_of(items: &Vec<JsonValue>) -> (r: Vec<u64>)
    ensures
        r@ == numbers_in(json_views(items@)),
{
    let ghost all = json_views(items@);
    let mut out: Vec<u64> = Vec::new();
    let mut i: usize = 0;
    proof {
        assert(all.take(0) =~= Seq::<Json>::empty());
    }
    while i < items.len()
        invariant
            i <= items@.len(),
            all == json_views(items@),
            out@ == numbers_in(all.take(i as int)),
        decreases items@.len() - i,
    {
        proof {
            assert(all.take(i as int + 1).drop_last() =~= all.take(i as int));
            assert(all.take(i as int + 1).last() == items@[i as int]@);
        }
        if let Some(x) = items[i].as_float() {
            out.push(x);
        }
        i = i + 1;
    }
    proof {
        assert(all.take(i as int) =~= all);
    }
    out
}

pub open spec fn opt_seq(v: Option<Vec<u64>>) -> Option<Seq<u64>> {
    match v {
        Some(x) => Some(x@),
        None => None,
    }
}

/// Takes the vector out of a row.
pub fn row_vector(row: &JsonValue, column: &str) -> (r: Option<Vec<u64>>)
    ensures
        opt_seq(r) == vector_in(row@, column@),
{
    match row.get(column) {
        Some(JsonValue::Array(items)) => {
            proof {
                lemma_array_view(*items);
            }
            Some(numbers_of(items))
        },
        _ => None,
    }
}

/// Takes the vector out of a stored row.
pub fn stored_vector(row: &JsonValue, column: &str) -> (r: Option<Vec<u64>>)
    ensures
        opt_seq(r) == stored_vector_in(row@, column@),
{
    let v: Vec<u64> = match row.get(column) {
        Some(JsonValue::Array(items)) => {
            proof {
                lemma_array_view(*items);
            }
            numbers_of(items)
        },
        Some(JsonValue::String(s)) => match parse_json(s.as_str().as_bytes()) {
            Ok(JsonValue::Array(items)) => {
                proof {
                    lemma_array_view(items);
                }
                numbers_of(&items)
            },
            _ => Vec::new(),
        },
        _ => Vec::new(),
    };
    if v.len() == 0 {
        None
    } else {
        Some(v)
    }
}

/// By what an entry is ordered: the number, or its opposite where the greatest
/// comes first. A NaN comes last.
pub open spec fn order_key(x: u64, descending: bool) -> int {
    if is_nan(x) {
        0x7FFF_FFFF_FFFF_FFFF
    } else if descending {
        -rank(x)
    } else {
        rank(x)
    }
}

fn key_of(x: u64, descending: bool) -> (r: i64)
    ensures
        r == order_key(x, descending),
{
    if nan(x) {
        0x7FFF_FFFF_FFFF_FFFF
    } else if descending {
        -f64_rank(x)
    } else {
        f64_rank(x)
    }
}

/// An ordered list with one more entry: after all that do not come behind it.
pub open spec fn placed(s: Seq<(usize, u64)>, x: (usize, u64), descending: bool) -> Seq<(usize, u64)>
    decreases s.len(),
{
    if s.len() > 0 && order_key(s.last().1, descending) > order_key(x.1, descending) {
        placed(s.drop_last(), x, descending).push(s.last())
    } else {
        s.push(x)
    }
}

/// The entries in order; of equal ones the earlier comes first.
pub open spec fn ranked(s: Seq<(usize, u64)>, descending: bool) -> Seq<(usize, u64)>
    decreases s.len(),
{
    if s.len() == 0 {
        s
    } else {
        placed(ranked(s.drop_last(), descending), s.last(), descending)
    }
}

/// Two ordered lists as one; of equal entries those of the first come first.
pub open spec fn woven(a: Seq<(usize, u64)>, b: Seq<(usize, u64)>, descending: bool) -> Seq<(usize, u64)>
    decreases a.len() + b.len(),
{
    if b.len() == 0 {
        a
    } else if a.len() == 0 {
        b
    } else if order_key(a.last().1, descending) > order_key(b.last().1, descending) {
        woven(a.drop_last(), b, descending).push(a.last())
    } else {
        woven(a, b.drop_last(), descending).push(b.last())
    }
}

proof fn lemma_woven_len(a: Seq<(usize, u64)>, b: Seq<(usize, u64)>, descending: bool)
    ensures
        woven(a, b, descending).len() == a.len() + b.len(),
    decreases a.len() + b.len(),
{
    if a.len() > 0 && b.len() > 0 {
        lemma_woven_len(a.drop_last(), b, descending);
        lemma_woven_len(a, b.drop_last(), descending);
    }
}

proof fn lemma_placed_woven(
    a: Seq<(usize, u64)>,
    b: Seq<(usize, u64)>,
    x: (usize, u64),
    descending: bool,
)
    ensures
        placed(woven(a, b, descending), x, descending) == woven(
            a,
            placed(b, x, descending),
            descending,
        ),
    decreases a.len() + b.len(),
{
    let d = descending;
    let m = woven(a, b, d);
    let p = placed(b, x, d);
    let kx = order_key(x.1, d);
    if b.len() == 0 {
        assert(p =~= seq![x]);
        assert(p.drop_last() =~= b);
        if a.len() > 0 && order_key(a.last().1, d) > kx {
            lemma_placed_woven(a.drop_last(), b, x, d);
        }
        if a.len() == 0 {
            assert(a.push(x) =~= p);
        }
    } else if a.len() == 0 {
        assert(p.len() > 0);
    } else {
        let ka = order_key(a.last().1, d);
        let kb = order_key(b.last().1, d);
        let la = a.drop_last();
        let lb = b.drop_last();
        if kb > kx {
            assert(p == placed(lb, x, d).push(b.last()));
            assert(p.drop_last() =~= placed(lb, x, d));
        } else {
            assert(p == b.push(x));
            assert(p.drop_last() =~= b);
        }
        if ka > kb {
            let m1 = woven(la, b, d);
            assert(m == m1.push(a.last()));
            assert(m.drop_last() =~= m1);
            lemma_placed_woven(la, b, x, d);
        } else {
            let m1 = woven(a, lb, d);
            assert(m == m1.push(b.last()));
            assert(m.drop_last() =~= m1);
            lemma_placed_woven(a, lb, x, d);
        }
    }
}

/// Ranking two lists one after the other is ranking each and weaving them.
pub proof fn ranked_in_parts(a: Seq<(usize, u64)>, b: Seq<(usize, u64)>, descending: bool)
    ensures
        ranked(a + b, descending) == woven(
            ranked(a, descending),
            ranked(b, descending),
            descending,
        ),
    decreases b.len(),
{
    if b.len() == 0 {
        assert(a + b =~= a);
    } else {
        let t = b.drop_last();
        assert((a + b).drop_last() =~= a + t);
        assert((a + b).last() == b.last());
        ranked_in_parts(a, t, descending);
        lemma_placed_woven(
            ranked(a, descending),
            ranked(t, descending),
            b.last(),
            descending,
        );
    }
}

fn weave(a: &Vec<(usize, u64)>, b: &Vec<(usize, u64)>, descending: bool) -> (r: Vec<(usize, u64)>)
    requires
        a@.len() + b@.len() <= usize::MAX,
    ensures
        r@ == woven(a@, b@, descending),
{
    let n: usize = a.len() + b.len();
    let mut out: Vec<(usize, u64)> = Vec::new();
    let mut f: usize = 0;
    while f < n
        invariant
            f <= n,
            out@.len() == f,
        decreases n - f,
    {
        out.push((0, 0));
        f = f + 1;
    }
    let ghost whole = woven(a@, b@, descending);
    let mut i: usize = a.len();
    let mut j: usize = b.len();
    proof {
        assert(a@.take(i as int) =~= a@);
        assert(b@.take(j as int) =~= b@);
        assert(out@.skip(n as int) =~= Seq::<(usize, u64)>::empty());
        assert(whole + out@.skip(n as int) =~= whole);
    }
    while i + j > 0
        invariant
            i <= a@.len(),
            j <= b@.len(),
            n == a@.len() + b@.len(),
            n <= usize::MAX,
            out@.len() == n,
            whole == woven(a@, b@, descending),
            whole == woven(a@.take(i as int), b@.take(j as int), descending) + out@.skip(i + j),
        decreases i + j,
    {
        let ghost sa = a@.take(i as int);
        let ghost sb = b@.take(j as int);
        let ghost rest = out@.skip(i + j);
        let k: usize = i + j - 1;
        let from_a: bool = j == 0 || (i > 0 && key_of(a[i - 1].1, descending) > key_of(
            b[j - 1].1,
            descending,
        ));
        proof {
            if i > 0 {
                assert(sa.drop_last() =~= a@.take(i - 1));
                assert(sa.last() == a@[i - 1]);
            }
            if j > 0 {
                assert(sb.drop_last() =~= b@.take(j - 1));
                assert(sb.last() == b@[j - 1]);
            }
        }
        if from_a {
            let x = a[i - 1];
            out[k] = x;
            proof {
                assert(out@.skip(k as int) =~= seq![x] + rest);
                if j == 0 {
                    assert(b@.take(0) =~= sb);
                    assert(sa =~= a@.take(i - 1).push(x));
                    assert(woven(a@.take(i - 1), sb, descending) == a@.take(i - 1));
                }
                assert(woven(sa, sb, descending) == woven(a@.take(i - 1), sb, descending).push(x));
                assert(woven(a@.take(i - 1), sb, descending).push(x) + rest =~= woven(
                    a@.take(i - 1),
                    sb,
                    descending,
                ) + (seq![x] + rest));
            }
            i = i - 1;
        } else {
            let x = b[j - 1];
            out[k] = x;
            proof {
                assert(out@.skip(k as int) =~= seq![x] + rest);
                if i == 0 {
                    assert(sb =~= b@.take(j - 1).push(x));
                    assert(woven(sa, b@.take(j - 1), descending) =~= b@.take(j - 1));
                }
                assert(woven(sa, sb, descending) == woven(sa, b@.take(j - 1), descending).push(x));
                assert(woven(sa, b@.take(j - 1), descending).push(x) + rest =~= woven(
                    sa,
                    b@.take(j - 1),
                    descending,
                ) + (seq![x] + rest));
            }
            j = j - 1;
        }
    }
    proof {
        assert(woven(a@.take(0), b@.take(0), descending) =~= Seq::<(usize, u64)>::empty());
        assert(out@.skip(0) =~= out@);
        assert(whole =~= out@);
    }
    out
}

fn rank_range(items: &Vec<(usize, u64)>, lo: usize, hi: usize, descending: bool) -> (r: Vec<(usize, u64)>)
    requires
        lo <= hi <= items@.len(),
    ensures
        r@ == ranked(items@.subrange(lo as int, hi as int), descending),
        r@.len() == hi - lo,
    decreases hi - lo,
{
    let ghost s = items@.subrange(lo as int, hi as int);
    if hi - lo < 2 {
        let mut out: Vec<(usize, u64)> = Vec::new();
        if lo < hi {
            out.push(items[lo]);
            proof {
                assert(s.drop_last() =~= Seq::<(usize, u64)>::empty());
                assert(ranked(s.drop_last(), descending) =~= Seq::<(usize, u64)>::empty());
                assert(out@ =~= ranked(s, descending));
            }
        } else {
            proof {
                assert(out@ =~= ranked(s, descending));
            }
        }
        out
    } else {
        let mid: usize = lo + (hi - lo) / 2;
        let left = rank_range(items, lo, mid, descending);
        let right = rank_range(items, mid, hi, descending);
        proof {
            let a = items@.subrange(lo as int, mid as int);
            let b = items@.subrange(mid as int, hi as int);
            assert(a + b =~= s);
            ranked_in_parts(a, b, descending);
            lemma_woven_len(left@, right@, descending);
        }
        weave(&left, &right, descending)
    }
}

/// Puts entries in order, by their numbers.
pub fn rank_entries(items: &Vec<(usize, u64)>, descending: bool) -> (r: Vec<(usize, u64)>)
    ensures
        r@ == ranked(items@, descending),
        r@.len() == items@.len(),
{
    proof {
        assert(items@.subrange(0, items@.len() as int) =~= items@);
    }
    rank_range(items, 0, items.len(), descending)
}

proof fn lemma_placed(s: Seq<(usize, u64)>, x: (usize, u64), descending: bool)
    requires
        in_order(s, descending),
    ensures
        in_order(placed(s, x, descending), descending),
        placed(s, x, descending).to_multiset() == s.to_multiset().insert(x),
        placed(s, x, descending).len() == s.len() + 1,
        forall|i: int|
            0 <= i < placed(s, x, descending).len() ==> order_key(
                (#[trigger] placed(s, x, descending)[i]).1,
                descending,
            ) <= if s.len() > 0 && order_key(s.last().1, descending) > order_key(x.1, descending) {
                order_key(s.last().1, descending)
            } else {
                order_key(x.1, descending)
            },
    decreases s.len(),
{
    broadcast use vstd::seq_lib::group_to_multiset_ensures;

    let d = descending;
    let p = placed(s, x, d);
    if s.len() > 0 && order_key(s.last().1, d) > order_key(x.1, d) {
        let t = s.drop_last();
        assert(in_order(t, d)) by {
            assert forall|i: int, j: int| 0 <= i < j < t.len() implies order_key(
                (#[trigger] t[i]).1,
                d,
            ) <= order_key((#[trigger] t[j]).1, d) by {
                assert(s[i] == t[i] && s[j] == t[j]);
            }
        }
        lemma_placed(t, x, d);
        let q = placed(t, x, d);
        assert(p == q.push(s.last()));
        assert(t.push(s.last()) =~= s);
        if t.len() > 0 {
            assert(s[t.len() - 1] == t.last());
            assert(s[s.len() - 1] == s.last());
        }
        assert forall|i: int, j: int| 0 <= i < j < p.len() implies order_key((#[trigger] p[i]).1, d)
            <= order_key((#[trigger] p[j]).1, d) by {
            if j < q.len() {
                assert(p[i] == q[i] && p[j] == q[j]);
            } else {
                assert(p[i] == q[i]);
            }
        }
        assert(p.to_multiset() =~= s.to_multiset().insert(x));
        assert forall|i: int| 0 <= i < p.len() implies order_key((#[trigger] p[i]).1, d) <= order_key(
            s.last().1,
            d,
        ) by {
            if i < q.len() {
                assert(p[i] == q[i]);
            }
        }
    } else {
        assert(p == s.push(x));
        assert forall|i: int, j: int| 0 <= i < j < p.len() implies order_key((#[trigger] p[i]).1, d)
            <= order_key((#[trigger] p[j]).1, d) by {
            if j < s.len() {
                assert(p[i] == s[i] && p[j] == s[j]);
            } else {
                assert(p[i] == s[i]);
                assert(s[s.len() - 1] == s.last());
                if i < s.len() - 1 {
                    assert(order_key(s[i].1, d) <= order_key(s[s.len() - 1].1, d));
                }
            }
        }
        assert forall|i: int| 0 <= i < p.len() implies order_key((#[trigger] p[i]).1, d) <= order_key(
            x.1,
            d,
        ) by {
            if i < s.len() {
                assert(p[i] == s[i]);
                assert(s[s.len() - 1] == s.last());
                if i < s.len() - 1 {
                    assert(order_key(s[i].1, d) <= order_key(s[s.len() - 1].1, d));
                }
            }
        }
    }
}

/// No entry comes before one that is better.
pub open spec fn in_order(s: Seq<(usize, u64)>, descending: bool) -> bool {
    forall|i: int, j: int|
        0 <= i < j < s.len() ==> order_key((#[trigger] s[i]).1, descending) <= order_key(
            (#[trigger] s[j]).1,
            descending,
        )
}

/// A ranking is in order and holds the same entries.
pub proof fn ranking_orders_all(s: Seq<(usize, u64)>, descending: bool)
    ensures
        in_order(ranked(s, descending), descending),
        ranked(s, descending).to_multiset() == s.to_multiset(),
        ranked(s, descending).len() == s.len(),
    decreases s.len(),
{
    broadcast use vstd::seq_lib::group_to_multiset_ensures;

    if s.len() > 0 {
        let t = s.drop_last();
        ranking_orders_all(t, descending);
        lemma_placed(ranked(t, descending), s.last(), descending);
        assert(t.push(s.last()) =~= s);
    }
}

/// The closest entries, at most `limit`.
pub open spec fn closest(distances: Seq<u64>, limit: nat) -> Seq<(usize, u64)> {
    let all = ranked(Seq::new(distances.len(), |i: int| (i as usize, distances[i])), false);
    all.take(
        if limit < all.len() {
            limit as int
        } else {
            all.len() as int
        },
    )
}

fn cut(items: Vec<(usize, u64)>, limit: usize) -> (r: Vec<(usize, u64)>)
    ensures
        r@ == items@.take(
            if limit < items@.len() {
                limit as int
            } else {
                items@.len() as int
            },
        ),
{
    let mut out: Vec<(usize, u64)> = Vec::new();
    let n: usize = if limit < items.len() {
        limit
    } else {
        items.len()
    };
    let mut i: usize = 0;
    while i < n
        invariant
            i <= n <= items@.len(),
            out@ == items@.take(i as int),
        decreases n - i,
    {
        out.push(items[i]);
        proof {
            assert(items@.take(i as int + 1) =~= items@.take(i as int).push(items@[i as int]));
        }
        i = i + 1;
    }
    out
}

/// Finds the entries with the least distances.
pub fn nearest(distances: &Vec<u64>, limit: usize) -> (r: Vec<(usize, u64)>)
    ensures
        r@ == closest(distances@, limit as nat),
{
    let mut items: Vec<(usize, u64)> = Vec::new();
    let mut i: usize = 0;
    while i < distances.len()
        invariant
            i <= distances.len(),
            items@.len() == i,
            forall|k: int| 0 <= k < i ==> #[trigger] items@[k] == (k as usize, distances@[k]),
        decreases distances@.len() - i,
    {
        items.push((i, distances[i]));
        i = i + 1;
    }
    proof {
        assert(items@ =~= Seq::new(distances@.len(), |i: int| (i as usize, distances@[i])));
    }
    let all = rank_entries(&items, false);
    cut(all, limit)
}

/// What is not found is not nearer than what is.
pub proof fn nothing_nearer_is_left(distances: Seq<u64>, limit: nat, i: int, j: int)
    requires
        0 <= i < closest(distances, limit).len(),
        closest(distances, limit).len() <= j < distances.len(),
    ensures
        order_key(closest(distances, limit)[i].1, false) <= order_key(
            ranked(Seq::new(distances.len(), |k: int| (k as usize, distances[k])), false)[j].1,
            false,
        ),
{
    let items = Seq::new(distances.len(), |k: int| (k as usize, distances[k]));
    ranking_orders_all(items, false);
    assert(closest(distances, limit)[i] == ranked(items, false)[i]);
}

/// Which ways of searching a query asks for.
#[derive(Debug, PartialEq)]
pub struct Modalities {
    pub vector: bool,
    pub text: bool,
}

/// The ways of searching that a query asks for, by vector and by text; nothing where
/// there is nothing to search.
pub open spec fn ways_asked(
    n_rows: nat,
    k: nat,
    vector_column: Seq<char>,
    query_len: nat,
    n_text_columns: nat,
    query_text: Seq<char>,
) -> Option<(bool, bool)> {
    let v = vector_column.len() > 0 && query_len > 0;
    let t = n_text_columns > 0 && query_text.len() > 0;
    if k > 0 && n_rows > 0 && (v || t) {
        Some((v, t))
    } else {
        None
    }
}

/// Decides how to search: by vector where a column and a vector are given, by
/// text where columns and a text are given. There is nothing to search without
/// either, without rows, or for no results.
pub fn modalities(
    n_rows: usize,
    k: usize,
    vector_column: &str,
    query_len: usize,
    n_text_columns: usize,
    query_text: &str,
) -> (r: Option<Modalities>)
    ensures
        ({
            let v = vector_column@.len() > 0 && query_len > 0;
            let t = n_text_columns > 0 && query_text@.len() > 0;
            match r {
                Some(m) => k > 0 && n_rows > 0 && (v || t) && m.vector == v && m.text == t,
                None => k == 0 || n_rows == 0 || (!v && !t),
            }
        }),
        ways_asked(
            n_rows as nat,
            k as nat,
            vector_column@,
            query_len as nat,
            n_text_columns as nat,
            query_text@,
        ) == (match r {
            Some(m) => Some((m.vector, m.text)),
            None => None,
        }),
{
    proof {
        reveal_strlit("");
        assert(""@ =~= Seq::<char>::empty());
        assert(vector_column@.len() == 0 ==> vector_column@ =~= ""@);
        assert(query_text@.len() == 0 ==> query_text@ =~= ""@);
    }
    let v: bool = !same_text(vector_column, "") && query_len > 0;
    let t: bool = n_text_columns > 0 && !same_text(query_text, "");
    if k == 0 || n_rows == 0 || (!v && !t) {
        None
    } else {
        Some(Modalities { vector: v, text: t })
    }
}

/// The candidates that have a distance.
pub open spec fn with_distance(rows: Seq<usize>, distances: Seq<Option<u64>>) -> Seq<(usize, u64)>
    decreases rows.len(),
{
    if rows.len() == 0 {
        Seq::empty()
    } else {
        let prev = with_distance(rows.drop_last(), distances);
        let n = rows.len() as int - 1;
        if n < distances.len() && distances[n] is Some {
            prev.push((rows.last(), distances[n]->0))
        } else {
            prev
        }
    }
}

/// Ranks the candidates by their distances; one without a distance is left out.
pub fn vector_ranking(rows: &Vec<usize>, distances: &Vec<Option<u64>>) -> (r: Vec<(usize, u64)>)
    ensures
        r@ == ranked(with_distance(rows@, distances@), false),
{
    let mut items: Vec<(usize, u64)> = Vec::new();
    let mut i: usize = 0;
    proof {
        assert(rows@.take(0) =~= Seq::<usize>::empty());
    }
    while i < rows.len()
        invariant
            i <= rows@.len(),
            items@ == with_distance(rows@.take(i as int), distances@),
        decreases rows@.len() - i,
    {
        proof {
            assert(rows@.take(i as int + 1).drop_last() =~= rows@.take(i as int));
            assert(rows@.take(i as int + 1).last() == rows@[i as int]);
        }
        if i < distances.len() {
            if let Some(d) = distances[i] {
                items.push((rows[i], d));
            }
        }
        i = i + 1;
    }
    proof {
        assert(rows@.take(i as int) =~= rows@);
    }
    rank_entries(&items, false)
}

/// The entries with a score above zero.
pub open spec fn above_zero(s: Seq<(usize, u64)>) -> Seq<(usize, u64)>
    decreases s.len(),
{
    if s.len() == 0 {
        Seq::empty()
    } else {
        let prev = above_zero(s.drop_last());
        if f64_below(0, s.last().1) {
            prev.push(s.last())
        } else {
            prev
        }
    }
}

/// The candidates with their scores; beyond the scores there are none.
pub open spec fn scored(rows: Seq<usize>, scores: Seq<u64>) -> Seq<(usize, u64)> {
    let n = if rows.len() < scores.len() {
        rows.len()
    } else {
        scores.len()
    };
    Seq::new(n, |i: int| (rows[i], scores[i]))
}

/// Ranks the candidates by their scores, the greatest first; one that scores
/// nothing is left out.
pub fn text_ranking(rows: &Vec<usize>, scores: &Vec<u64>) -> (r: Vec<(usize, u64)>)
    ensures
        r@ == above_zero(ranked(scored(rows@, scores@), true)),
{
    let mut items: Vec<(usize, u64)> = Vec::new();
    let mut i: usize = 0;
    while i < rows.len() && i < scores.len()
        invariant
            i <= rows@.len(),
            i <= scores@.len(),
            items@.len() == i,
            forall|k: int| 0 <= k < i ==> #[trigger] items@[k] == (rows@[k], scores@[k]),
        decreases rows@.len() - i,
    {
        items.push((rows[i], scores[i]));
        i = i + 1;
    }
    proof {
        assert(items@ =~= scored(rows@, scores@));
    }
    let all = rank_entries(&items, true);
    let mut out: Vec<(usize, u64)> = Vec::new();
    let mut k: usize = 0;
    proof {
        assert(all@.take(0) =~= Seq::<(usize, u64)>::empty());
    }
    while k < all.len()
        invariant
            k <= all@.len(),
            out@ == above_zero(all@.take(k as int)),
        decreases all@.len() - k,
    {
        proof {
            assert(all@.take(k as int + 1).drop_last() =~= all@.take(k as int));
            assert(all@.take(k as int + 1).last() == all@[k as int]);
        }
        if f64_lt(0, all[k].1) {
            out.push(all[k]);
        }
        k = k + 1;
    }
    proof {
        assert(all@.take(k as int) =~= all@);
    }
    out
}

/// One place in one ranking: the ranking and the rank, from one on.
#[derive(Clone, Copy)]
pub struct RankTerm {
    pub list: usize,
    pub rank: usize,
}

/// The places in the first `n` rankings, ranking after ranking.
pub open spec fn all_terms(lists: Seq<Vec<usize>>) -> Seq<(usize, RankTerm)>
    decreases lists.len(),
{
    if lists.len() == 0 {
        Seq::empty()
    } else {
        let n = (lists.len() - 1) as usize;
        let last = lists.last()@;
        all_terms(lists.drop_last()) + Seq::new(
            last.len(),
            |i: int| (last[i], RankTerm { list: n, rank: (i + 1) as usize }),
        )
    }
}

/// The entries that occur, each where it first does.
pub open spec fn entries_in(terms: Seq<(usize, RankTerm)>) -> Seq<usize>
    decreases terms.len(),
{
    if terms.len() == 0 {
        Seq::empty()
    } else {
        let prev = entries_in(terms.drop_last());
        if prev.contains(terms.last().0) {
            prev
        } else {
            prev.push(terms.last().0)
        }
    }
}

/// The places of an entry.
pub open spec fn terms_of(terms: Seq<(usize, RankTerm)>, entry: usize) -> Seq<RankTerm>
    decreases terms.len(),
{
    if terms.len() == 0 {
        Seq::empty()
    } else {
        let prev = terms_of(terms.drop_last(), entry);
        if terms.last().0 == entry {
            prev.push(terms.last().1)
        } else {
            prev
        }
    }
}

/// Each entry with its places.
pub open spec fn places(terms: Seq<(usize, RankTerm)>) -> Seq<(usize, Seq<RankTerm>)> {
    let e = entries_in(terms);
    Seq::new(e.len(), |i: int| (e[i], terms_of(terms, e[i])))
}

pub open spec fn place_views(v: Seq<(usize, Vec<RankTerm>)>) -> Seq<(usize, Seq<RankTerm>)> {
    Seq::new(v.len(), |i: int| (v[i].0, v[i].1@))
}

proof fn lemma_entries(terms: Seq<(usize, RankTerm)>)
    ensures
        entries_in(terms).no_duplicates(),
        forall|x: usize|
            !(#[trigger] entries_in(terms).contains(x)) ==> terms_of(terms, x).len() == 0,
    decreases terms.len(),
{
    if terms.len() > 0 {
        let t = terms.drop_last();
        lemma_entries(t);
        let prev = entries_in(t);
        let all = entries_in(terms);
        assert forall|x: usize| !(#[trigger] all.contains(x)) implies terms_of(terms, x).len() == 0 by {
            if prev.contains(x) {
                let k = choose|k: int| 0 <= k < prev.len() && prev[k] == x;
                assert(all[k] == x);
            }
            if terms.last().0 == x {
                if !prev.contains(x) {
                    assert(all.last() == x);
                    assert(all[all.len() - 1] == x);
                }
            }
        }
    }
}

fn push_term(v: &mut Vec<(usize, Vec<RankTerm>)>, k: usize, t: RankTerm)
    requires
        k < old(v)@.len(),
    ensures
        final(v)@.len() == old(v)@.len(),
        place_views(final(v)@) == place_views(old(v)@).update(
            k as int,
            (old(v)@[k as int].0, old(v)@[k as int].1@.push(t)),
        ),
{
    let ghost before = v@;
    v[k].1.push(t);
    proof {
        assert(place_views(v@) =~= place_views(before).update(
            k as int,
            (before[k as int].0, before[k as int].1@.push(t)),
        ));
    }
}

/// Lists for each entry of the rankings the places that it has in them.
pub fn rank_places(lists: &Vec<Vec<usize>>) -> (r: Vec<(usize, Vec<RankTerm>)>)
    ensures
        place_views(r@) == places(all_terms(lists@)),
{
    broadcast use vstd::std_specs::hash::group_hash_axioms;

    let mut out: Vec<(usize, Vec<RankTerm>)> = Vec::new();
    let mut at: HashMap<usize, usize> = HashMap::new();
    let ghost mut done: Seq<(usize, RankTerm)> = Seq::empty();
    let mut l: usize = 0;
    proof {
        assert(lists@.take(0) =~= Seq::<Vec<usize>>::empty());
        assert(place_views(out@) =~= places(done));
    }
    while l < lists.len()
        invariant
            l <= lists.len(),
            done == all_terms(lists@.take(l as int)),
            place_views(out@) == places(done),
            out@.len() == entries_in(done).len(),
            forall|x: usize| #[trigger] at@.contains_key(x) <==> entries_in(done).contains(x),
            forall|x: usize|
                #[trigger] at@.contains_key(x) ==> at@[x] < out@.len() && entries_in(done)[at@[x] as int] == x,
        decreases lists@.len() - l,
    {
        let list = &lists[l];
        let ghost start = done;
        let ghost more = Seq::new(
            list@.len(),
            |i: int| (list@[i], RankTerm { list: l, rank: (i + 1) as usize }),
        );
        let mut i: usize = 0;
        proof {
            assert(lists@[l as int] == *list);
            assert(lists@.take(l as int + 1).drop_last() =~= lists@.take(l as int));
            assert(lists@.take(l as int + 1).last() == *list);
            assert(all_terms(lists@.take(l as int + 1)) == start + more);
            assert(start + more.take(0) =~= start);
        }
        while i < list.len()
            invariant
                i <= list.len(),
                more == Seq::new(
                    list@.len(),
                    |i: int| (list@[i], RankTerm { list: l, rank: (i + 1) as usize }),
                ),
                done == start + more.take(i as int),
                place_views(out@) == places(done),
                out@.len() == entries_in(done).len(),
                forall|x: usize| #[trigger] at@.contains_key(x) <==> entries_in(done).contains(x),
                forall|x: usize|
                    #[trigger] at@.contains_key(x) ==> at@[x] < out@.len() && entries_in(done)[at@[x] as int]
                        == x,
            decreases list@.len() - i,
        {
            let x: usize = list[i];
            let t = RankTerm { list: l, rank: i + 1 };
            let ghost prev = done;
            let ghost next = done.push((x, t));
            let ghost e = entries_in(prev);
            let ghost before = place_views(out@);
            proof {
                assert(next.drop_last() =~= prev);
                assert(start + more.take(i as int + 1) =~= next);
                lemma_entries(prev);
            }
            let found: Option<usize> = match at.get(&x) {
                Some(k) => Some(*k),
                None => None,
            };
            match found {
                Some(k) => {
                    proof {
                        assert(before[k as int] == (e[k as int], terms_of(prev, e[k as int])));
                        assert(before[k as int] == (out@[k as int].0, out@[k as int].1@));
                    }
                    push_term(&mut out, k, t);
                    proof {
                        assert(entries_in(next) == e);
                        assert forall|m: int| 0 <= m < e.len() implies #[trigger] place_views(out@)[m]
                            == places(next)[m] by {
                            assert(before[m] == (e[m], terms_of(prev, e[m])));
                            if m != k as int {
                                assert(e[m] != e[k as int]);
                            }
                        }
                        assert(place_views(out@) =~= places(next));
                    }
                },
                None => {
                    proof {
                        assert(!at@.contains_key(x));
                        assert(!e.contains(x));
                    }
                    let n: usize = out.len();
                    let mut terms: Vec<RankTerm> = Vec::new();
                    terms.push(t);
                    let ghost tv = terms@;
                    out.push((x, terms));
                    at.insert(x, n);
                    proof {
                        let e2 = entries_in(next);
                        assert(e2 == e.push(x));
                        assert(terms_of(prev, x).len() == 0);
                        assert(tv =~= terms_of(next, x));
                        assert forall|m: int| 0 <= m < e2.len() implies #[trigger] place_views(out@)[m]
                            == places(next)[m] by {
                            if m < e.len() {
                                assert(before[m] == (e[m], terms_of(prev, e[m])));
                                assert(e.contains(e[m]));
                                assert(place_views(out@)[m] == before[m]);
                            }
                        }
                        assert(place_views(out@) =~= places(next));
                        assert forall|y: usize| #[trigger] at@.contains_key(y) <==> e2.contains(y) by {
                            if e.contains(y) {
                                let m = choose|m: int| 0 <= m < e.len() && e[m] == y;
                                assert(e2[m] == y);
                            }
                            if e2.contains(y) && y != x {
                                let m = choose|m: int| 0 <= m < e2.len() && e2[m] == y;
                                assert(e[m] == y);
                            }
                            assert(e2[e.len() as int] == x);
                        }
                    }
                },
            }
            proof {
                done = next;
            }
            i = i + 1;
        }
        proof {
            assert(more.take(i as int) =~= more);
        }
        l = l + 1;
    }
    proof {
        assert(lists@.take(l as int) =~= lists@);
    }
    out
}

/// A result of a search: the row, its fused score, and what each way of
/// searching said of it.
#[derive(Debug, PartialEq)]
pub struct Hit {
    pub row: usize,
    pub score: u64,
    pub vector_distance: Option<u64>,
    pub text_score: Option<u64>,
}

/// What a ranking says of an entry.
pub open spec fn said_of(ranking: Seq<(usize, u64)>, entry: usize) -> Option<u64>
    decreases ranking.len(),
{
    if ranking.len() == 0 {
        None
    } else if ranking[0].0 == entry {
        Some(ranking[0].1)
    } else {
        said_of(ranking.drop_first(), entry)
    }
}

fn find_said(ranking: &Vec<(usize, u64)>, entry: usize) -> (r: Option<u64>)
    ensures
        r == said_of(ranking@, entry),
{
    let mut i: usize = 0;
    proof {
        assert(ranking@.skip(0) =~= ranking@);
    }
    while i < ranking.len()
        invariant
            i <= ranking@.len(),
            said_of(ranking@, entry) == said_of(ranking@.skip(i as int), entry),
        decreases ranking@.len() - i,
    {
        proof {
            assert(ranking@.skip(i as int).drop_first() =~= ranking@.skip(i as int + 1));
        }
        if ranking[i].0 == entry {
            return Some(ranking[i].1);
        }
        i = i + 1;
    }
    None
}

/// The best `k` by fused score.
pub open spec fn best(fused: Seq<(usize, u64)>, k: nat) -> Seq<(usize, u64)> {
    let all = ranked(fused, true);
    all.take(
        if k < all.len() {
            k as int
        } else {
            all.len() as int
        },
    )
}

/// Puts the fused scores in order, keeps the best `k`, and tells of each what the
/// two rankings said.
pub fn top_hits(
    fused: &Vec<(usize, u64)>,
    k: usize,
    by_vector: &Vec<(usize, u64)>,
    by_text: &Vec<(usize, u64)>,
) -> (r: Vec<Hit>)
    ensures
        r@.len() == best(fused@, k as nat).len(),
        forall|i: int|
            0 <= i < r@.len() ==> {
                let b = best(fused@, k as nat)[i];
                (#[trigger] r@[i]) == Hit {
                    row: b.0,
                    score: b.1,
                    vector_distance: said_of(by_vector@, b.0),
                    text_score: said_of(by_text@, b.0),
                }
            },
{
    let all = rank_entries(fused, true);
    let top = cut(all, k);
    let mut out: Vec<Hit> = Vec::new();
    let mut i: usize = 0;
    while i < top.len()
        invariant
            i <= top@.len(),
            top@ == best(fused@, k as nat),
            out@.len() == i,
            forall|m: int|
                0 <= m < i ==> (#[trigger] out@[m]) == (Hit {
                    row: top@[m].0,
                    score: top@[m].1,
                    vector_distance: said_of(by_vector@, top@[m].0),
                    text_score: said_of(by_text@, top@[m].0),
                }),
        decreases top@.len() - i,
    {
        let (row, score) = top[i];
        out.push(
            Hit {
                row,
                score,
                vector_distance: find_said(by_vector, row),
                text_score: find_said(by_text, row),
            },
        );
        i = i + 1;
    }
    out
}

/// The rows to search: those that a condition holds of, all without one.
pub open spec fn candidate_rows(n: nat, holds: Option<Seq<bool>>) -> Seq<usize>
    decreases n,
{
    if n == 0 {
        Seq::empty()
    } else {
        let prev = candidate_rows((n - 1) as nat, holds);
        if holds is None || (n <= holds->0.len() && holds->0[n - 1]) {
            prev.push((n - 1) as usize)
        } else {
            prev
        }
    }
}

pub open spec fn opt_holds(holds: Option<&Vec<bool>>) -> Option<Seq<bool>> {
    match holds {
        Some(h) => Some(h@),
        None => None,
    }
}

/// Lists the rows to search.
pub fn candidates(n_rows: usize, holds: Option<&Vec<bool>>) -> (r: Vec<usize>)
    ensures
        r@ == candidate_rows(n_rows as nat, opt_holds(holds)),
{
    let mut out: Vec<usize> = Vec::new();
    let mut i: usize = 0;
    while i < n_rows
        invariant
            i <= n_rows,
            out@ == candidate_rows(i as nat, opt_holds(holds)),
        decreases n_rows - i,
    {
        let keep: bool = match holds {
            Some(h) => i < h.len() && h[i],
            None => true,
        };
        if keep {
            out.push(i);
        }
        i = i + 1;
    }
    out
}

/// The rows with their vectors: those of the first `n` that the condition holds
/// of and that have one.
pub open spec fn rows_with_vectors(rows: Seq<Json>, holds: Seq<bool>, column: Seq<char>, n: nat) -> Seq<
    (usize, Seq<u64>),
>
    decreases n,
{
    if n == 0 {
        Seq::empty()
    } else {
        let prev = rows_with_vectors(rows, holds, column, (n - 1) as nat);
        match stored_vector_in(rows[n - 1], column) {
            Some(v) if n <= holds.len() && holds[n - 1] => prev.push(((n - 1) as usize, v)),
            _ => prev,
        }
    }
}

pub open spec fn indexed_views(v: Seq<(usize, Vec<u64>)>) -> Seq<(usize, Seq<u64>)> {
    Seq::new(v.len(), |i: int| (v[i].0, v[i].1@))
}

/// Takes the vectors out of the rows to search.
pub fn vectors_of_rows(rows: &Vec<JsonValue>, holds: &Vec<bool>, column: &str) -> (r: Vec<(usize, Vec<u64>)>)
    ensures
        indexed_views(r@) == rows_with_vectors(json_views(rows@), holds@, column@, rows@.len()),
{
    let ghost all = json_views(rows@);
    let mut out: Vec<(usize, Vec<u64>)> = Vec::new();
    let mut i: usize = 0;
    proof {
        assert(indexed_views(out@) =~= Seq::<(usize, Seq<u64>)>::empty());
    }
    while i < rows.len()
        invariant
            i <= rows.len(),
            all == json_views(rows@),
            indexed_views(out@) == rows_with_vectors(all, holds@, column@, i as nat),
        decreases rows@.len() - i,
    {
        let ghost before = indexed_views(out@);
        if i < holds.len() && holds[i] {
            if let Some(v) = stored_vector(&rows[i], column) {
                let ghost entry = (i, v@);
                out.push((i, v));
                proof {
                    assert(indexed_views(out@) =~= before.push(entry));
                }
            }
        }
        i = i + 1;
    }
    out
}

} // verus!
