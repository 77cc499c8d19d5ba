//! What a search finds: which rows are ranked, in what order, and how rankings are
//! brought together.

use vstd::prelude::*;
use vstd::string::*;
use crate::float::{f64_below, is_nan};
use crate::json::{float_of, member, Json};
use crate::merge_laws::lemma_push_contains;
use crate::ranking::{above_zero, all_terms, best, candidate_rows, closest, entries_in, metric_named, numbers_in,
    order_key, placed, places, ranked, ranking_orders_all, rows_with_vectors, said_of, scored, stored_vector_in,
    terms_of, vector_in, with_distance, Metric, RankTerm};
use crate::search::{column_text, columns_text, documents_with, hits_in, in_word, is_stop_word, lowered_char,
    occurrences, scanned, tokens_of};
use crate::tally::{how_many, lemma_how_many_alike};
use crate::udf::alnum;

verus! {

/// One number stands before another in a ranking: the greater one where the greatest
/// come first, else the lesser one; what is no number comes after any number.
pub open spec fn ranks_before(a: u64, b: u64, descending: bool) -> bool {
    (!is_nan(a) && is_nan(b)) || (if descending {
        f64_below(b, a)
    } else {
        f64_below(a, b)
    })
}

proof fn lemma_order_key(a: u64, b: u64, descending: bool)
    ensures
        order_key(a, descending) < order_key(b, descending) <==> ranks_before(a, b, descending),
{
}

/// A ranking holds the entries that it was made of, and no entry stands before one
/// that ranks before it. Of entries that were listed by rising numbers, those that
/// rank alike stay so.
pub proof fn rankings_are_in_order(s: Seq<(usize, u64)>, descending: bool, i: int, j: int)
    requires
        0 <= i < j < s.len(),
    ensures
        ranked(s, descending).len() == s.len(),
        ranked(s, descending).to_multiset() == s.to_multiset(),
        !ranks_before(ranked(s, descending)[j].1, ranked(s, descending)[i].1, descending),
        (forall|a: int, b: int| 0 <= a < b < s.len() ==> (#[trigger] s[a]).0 < (#[trigger] s[b]).0) ==> ranks_before(
            ranked(s, descending)[i].1,
            ranked(s, descending)[j].1,
            descending,
        ) || ranked(s, descending)[i].0 < ranked(s, descending)[j].0,
{
    ranking_orders_all(s, descending);
    let r = ranked(s, descending);
    lemma_order_key(r[j].1, r[i].1, descending);
    lemma_order_key(r[i].1, r[j].1, descending);
    if forall|a: int, b: int| 0 <= a < b < s.len() ==> (#[trigger] s[a]).0 < (#[trigger] s[b]).0 {
        lemma_ties(s, descending);
        assert(sorted_both(r, descending));
    }
}

spec fn sorted_both(s: Seq<(usize, u64)>, descending: bool) -> bool {
    forall|i: int, j: int|
        0 <= i < j < s.len() ==> order_key((#[trigger] s[i]).1, descending) < order_key((#[trigger] s[j]).1, descending)
            || (order_key(s[i].1, descending) == order_key(s[j].1, descending) && s[i].0 < s[j].0)
}

proof fn lemma_placed_ties(s: Seq<(usize, u64)>, x: (usize, u64), descending: bool)
    requires
        sorted_both(s, descending),
        forall|i: int| 0 <= i < s.len() ==> (#[trigger] s[i]).0 < x.0,
    ensures
        sorted_both(placed(s, x, descending), descending),
        placed(s, x, descending).len() == s.len() + 1,
        forall|i: int|
            0 <= i < placed(s, x, descending).len() ==> (#[trigger] placed(s, x, descending)[i]) == x || s.contains(
                placed(s, x, descending)[i],
            ),
    decreases s.len(),
{
    let r = placed(s, x, descending);
    if s.len() > 0 && order_key(s.last().1, descending) > order_key(x.1, descending) {
        let t = s.drop_last();
        assert forall|i: int, j: int| 0 <= i < j < t.len() implies order_key((#[trigger] t[i]).1, descending)
            < order_key((#[trigger] t[j]).1, descending) || (order_key(t[i].1, descending) == order_key(
            t[j].1,
            descending,
        ) && t[i].0 < t[j].0) by {
            assert(s[i] == t[i] && s[j] == t[j]);
        }
        assert forall|i: int| 0 <= i < t.len() implies (#[trigger] t[i]).0 < x.0 by {
            assert(s[i] == t[i]);
        }
        lemma_placed_ties(t, x, descending);
        let q = placed(t, x, descending);
        assert(r == q.push(s.last()));
        assert forall|i: int| 0 <= i < r.len() implies (#[trigger] r[i]) == x || s.contains(r[i]) by {
            if i < q.len() {
                assert(r[i] == q[i]);
                if q[i] != x {
                    let k = choose|k: int| 0 <= k < t.len() && t[k] == q[i];
                    assert(s[k] == q[i]);
                }
            } else {
                assert(s[s.len() - 1] == r[i]);
            }
        }
        assert forall|i: int, j: int| 0 <= i < j < r.len() implies order_key((#[trigger] r[i]).1, descending)
            < order_key((#[trigger] r[j]).1, descending) || (order_key(r[i].1, descending) == order_key(
            r[j].1,
            descending,
        ) && r[i].0 < r[j].0) by {
            if j < q.len() {
                assert(r[i] == q[i] && r[j] == q[j]);
            } else {
                assert(r[i] == q[i]);
                if q[i] != x {
                    let k = choose|k: int| 0 <= k < t.len() && t[k] == q[i];
                    assert(s[k] == q[i]);
                    assert(s[s.len() - 1] == r[j]);
                }
            }
        }
    } else {
        assert(r == s.push(x));
        assert forall|i: int| 0 <= i < r.len() implies (#[trigger] r[i]) == x || s.contains(r[i]) by {
            if i < s.len() {
                assert(s[i] == r[i]);
            }
        }
        assert forall|i: int, j: int| 0 <= i < j < r.len() implies order_key((#[trigger] r[i]).1, descending)
            < order_key((#[trigger] r[j]).1, descending) || (order_key(r[i].1, descending) == order_key(
            r[j].1,
            descending,
        ) && r[i].0 < r[j].0) by {
            assert(r[i] == s[i]);
            if j < s.len() {
                assert(r[j] == s[j]);
            } else {
                assert(s[i].0 < x.0);
                assert(i <= s.len() - 1);
                if i < s.len() - 1 {
                    assert(s[s.len() - 1] == s.last());
                    assert(order_key(s[i].1, descending) <= order_key(s[s.len() - 1].1, descending));
                }
            }
        }
    }
}

proof fn lemma_ties(s: Seq<(usize, u64)>, descending: bool)
    requires
        forall|a: int, b: int| 0 <= a < b < s.len() ==> (#[trigger] s[a]).0 < (#[trigger] s[b]).0,
    ensures
        sorted_both(ranked(s, descending), descending),
        forall|i: int|
            0 <= i < ranked(s, descending).len() ==> s.contains(#[trigger] ranked(s, descending)[i]),
    decreases s.len(),
{
    if s.len() > 0 {
        let t = s.drop_last();
        assert forall|a: int, b: int| 0 <= a < b < t.len() implies (#[trigger] t[a]).0 < (#[trigger] t[b]).0 by {
            assert(s[a] == t[a] && s[b] == t[b]);
        }
        lemma_ties(t, descending);
        let q = ranked(t, descending);
        let x = s.last();
        assert(s[s.len() - 1] == x);
        assert forall|i: int| 0 <= i < q.len() implies (#[trigger] q[i]).0 < x.0 by {
            let k = choose|k: int| 0 <= k < t.len() && t[k] == q[i];
            assert(s[k] == t[k]);
        }
        lemma_placed_ties(q, x, descending);
        let r = ranked(s, descending);
        assert forall|i: int| 0 <= i < r.len() implies s.contains(#[trigger] r[i]) by {
            if r[i] != x {
                let m = choose|m: int| 0 <= m < q.len() && q[m] == r[i];
                let k = choose|k: int| 0 <= k < t.len() && t[k] == q[m];
                assert(s[k] == r[i]);
            } else {
                assert(s[s.len() - 1] == r[i]);
            }
        }
    }
}

proof fn lemma_same_members(a: Seq<(usize, u64)>, b: Seq<(usize, u64)>, x: (usize, u64))
    requires
        a.to_multiset() == b.to_multiset(),
    ensures
        a.contains(x) <==> b.contains(x),
{
    broadcast use vstd::seq_lib::group_to_multiset_ensures;

    assert(a.contains(x) <==> a.to_multiset().count(x) > 0);
    assert(b.contains(x) <==> b.to_multiset().count(x) > 0);
}

/// A search by distance gives as many entries as are asked for, where there are so
/// many. Each is a number of the list with its distance, none comes before a nearer
/// one, and none that is left out is nearer than one that is found.
pub proof fn the_nearest_are_found(distances: Seq<u64>, limit: nat, i: int, j: int)
    requires
        distances.len() <= usize::MAX,
        0 <= i < j < distances.len(),
        i < limit,
    ensures
        ({
            let found = closest(distances, limit);
            let all = closest(distances, distances.len());
            &&& found.len() == (if limit < distances.len() {
                limit
            } else {
                distances.len()
            })
            &&& found[i].0 < distances.len() && found[i].1 == distances[found[i].0 as int]
            &&& all.len() == distances.len()
            &&& found[i] == all[i]
            &&& !ranks_before(all[j].1, found[i].1, false)
            &&& ranks_before(found[i].1, all[j].1, false) || found[i].0 < all[j].0
            &&& exists|k: int| 0 <= k < all.len() && #[trigger] all[k] == (i as usize, distances[i])
        }),
{
    let items = Seq::new(distances.len(), |k: int| (k as usize, distances[k]));
    assert forall|a: int, b: int| 0 <= a < b < items.len() implies (#[trigger] items[a]).0 < (#[trigger] items[b]).0 by {}
    rankings_are_in_order(items, false, i, j);
    lemma_ties(items, false);
    let r = ranked(items, false);
    assert(closest(distances, distances.len()) =~= r);
    assert(items.contains(r[i]));
    let k = choose|k: int| 0 <= k < items.len() && items[k] == r[i];
    lemma_same_members(r, items, items[i]);
    assert(items.contains(items[i]));
    assert(r.contains(items[i]));
    let m = choose|m: int| 0 <= m < r.len() && r[m] == items[i];
    assert(closest(distances, distances.len())[m] == (i as usize, distances[i]));
}

/// The hits of a search are the entries with the greatest scores, the greatest first,
/// as many as are asked for where there are so many.
pub proof fn the_best_are_found(fused: Seq<(usize, u64)>, k: nat, i: int, j: int)
    requires
        0 <= i < j < fused.len(),
        i < k,
    ensures
        ({
            let found = best(fused, k);
            let all = best(fused, fused.len());
            &&& found.len() == (if k < fused.len() {
                k
            } else {
                fused.len()
            })
            &&& all.len() == fused.len()
            &&& all.to_multiset() == fused.to_multiset()
            &&& fused.contains(found[i])
            &&& found[i] == all[i]
            &&& !ranks_before(all[j].1, found[i].1, true)
            &&& (forall|a: int, b: int|
                0 <= a < b < fused.len() ==> (#[trigger] fused[a]).0 < (#[trigger] fused[b]).0) ==> ranks_before(
                found[i].1,
                all[j].1,
                true,
            ) || found[i].0 < all[j].0
        }),
{
    rankings_are_in_order(fused, true, i, j);
    let r = ranked(fused, true);
    assert(best(fused, fused.len()) =~= r);
    assert(r.contains(r[i]));
    lemma_same_members(r, fused, r[i]);
}

proof fn lemma_terms(lists: Seq<Vec<usize>>, x: (usize, RankTerm))
    requires
        lists.len() <= usize::MAX,
    ensures
        all_terms(lists).contains(x) <==> (x.1.list < lists.len() && 1 <= x.1.rank <= lists[x.1.list as int]@.len()
            && x.0 == lists[x.1.list as int]@[x.1.rank - 1]),
    decreases lists.len(),
{
    if lists.len() > 0 {
        let rest = lists.drop_last();
        lemma_terms(rest, x);
        let n = (lists.len() - 1) as usize;
        let last = lists.last()@;
        let prev = all_terms(rest);
        let more = Seq::new(last.len(), |i: int| (last[i], RankTerm { list: n, rank: (i + 1) as usize }));
        let all = all_terms(lists);
        assert(all == prev + more);
        assert(last.len() <= usize::MAX) by {
            vstd::std_specs::vec::axiom_spec_len(&lists.last());
        }
        if all.contains(x) {
            let k = choose|k: int| 0 <= k < all.len() && all[k] == x;
            if k < prev.len() {
                assert(prev[k] == x);
                assert(prev.contains(x));
                assert(lists[x.1.list as int] == rest[x.1.list as int]);
            } else {
                assert(more[k - prev.len()] == x);
            }
        }
        if x.1.list < lists.len() && 1 <= x.1.rank <= lists[x.1.list as int]@.len() && x.0
            == lists[x.1.list as int]@[x.1.rank - 1] {
            if x.1.list < rest.len() {
                assert(rest[x.1.list as int] == lists[x.1.list as int]);
                let k = choose|k: int| 0 <= k < prev.len() && prev[k] == x;
                assert(all[k] == x);
            } else {
                let i = x.1.rank - 1;
                assert(more[i] == x);
                assert(all[prev.len() + i] == x);
            }
        }
    }
}

proof fn lemma_entries(terms: Seq<(usize, RankTerm)>, entry: usize)
    ensures
        entries_in(terms).contains(entry) <==> exists|t: RankTerm| #[trigger] terms.contains((entry, t)),
        entries_in(terms).no_duplicates(),
    decreases terms.len(),
{
    if terms.len() > 0 {
        let rest = terms.drop_last();
        lemma_entries(rest, entry);
        let (e, t) = terms.last();
        let prev = entries_in(rest);
        assert(terms =~= rest.push((e, t)));
        lemma_entries(rest, e);
        lemma_push_contains(prev, e, entry);
        if entries_in(terms).contains(entry) {
            if prev.contains(entry) {
                let u = choose|u: RankTerm| #[trigger] rest.contains((entry, u));
                lemma_push_contains(rest, (e, t), (entry, u));
                assert(terms.contains((entry, u)));
            } else {
                lemma_push_contains(rest, (e, t), (e, t));
                assert(terms.contains((entry, t)));
            }
        }
        if exists|u: RankTerm| #[trigger] terms.contains((entry, u)) {
            let u = choose|u: RankTerm| #[trigger] terms.contains((entry, u));
            lemma_push_contains(rest, (e, t), (entry, u));
            if rest.contains((entry, u)) {
                assert(prev.contains(entry));
            }
        }
    } else {
        assert(entries_in(terms) =~= Seq::<usize>::empty());
        if exists|u: RankTerm| #[trigger] terms.contains((entry, u)) {
            let u = choose|u: RankTerm| #[trigger] terms.contains((entry, u));
            assert(false);
        }
    }
}

proof fn lemma_terms_of(terms: Seq<(usize, RankTerm)>, entry: usize, t: RankTerm)
    ensures
        terms_of(terms, entry).contains(t) <==> terms.contains((entry, t)),
    decreases terms.len(),
{
    if terms.len() > 0 {
        let rest = terms.drop_last();
        lemma_terms_of(rest, entry, t);
        let (e, u) = terms.last();
        assert(terms =~= rest.push((e, u)));
        lemma_push_contains(rest, (e, u), (entry, t));
        lemma_push_contains(terms_of(rest, entry), u, t);
    }
}

/// Every row of every ranking is brought together, at each of its places. A row has
/// one entry, and the entry has a place for a ranking and a rank just where the row
/// stands there.
pub proof fn fused_rankings_lose_no_place(lists: Seq<Vec<usize>>, e: int, l: int, i: int, t: RankTerm)
    requires
        lists.len() <= usize::MAX,
    ensures
        ({
            let fused = places(all_terms(lists));
            &&& 0 <= l < lists.len() && 0 <= i < lists[l]@.len() ==> exists|k: int|
                0 <= k < fused.len() && (#[trigger] fused[k]).0 == lists[l]@[i] && fused[k].1.contains(
                    RankTerm { list: l as usize, rank: (i + 1) as usize },
                )
            &&& 0 <= e < fused.len() ==> {
                &&& fused[e].1.contains(t) <==> (t.list < lists.len() && 1 <= t.rank <= lists[t.list as int]@.len()
                    && lists[t.list as int]@[t.rank - 1] == fused[e].0)
                &&& forall|k: int| 0 <= k < fused.len() && k != e ==> (#[trigger] fused[k]).0 != fused[e].0
            }
        }),
{
    let terms = all_terms(lists);
    let fused = places(terms);
    let names = entries_in(terms);
    if 0 <= l < lists.len() && 0 <= i < lists[l]@.len() {
        assert(lists[l]@.len() <= usize::MAX) by {
            vstd::std_specs::vec::axiom_spec_len(&lists[l]);
        }
        let x = lists[l]@[i];
        let u = RankTerm { list: l as usize, rank: (i + 1) as usize };
        lemma_terms(lists, (x, u));
        assert(terms.contains((x, u)));
        lemma_entries(terms, x);
        let k = choose|k: int| 0 <= k < names.len() && names[k] == x;
        lemma_terms_of(terms, x, u);
        assert(fused[k].0 == x && fused[k].1.contains(u));
    }
    if 0 <= e < fused.len() {
        lemma_terms_of(terms, fused[e].0, t);
        lemma_terms(lists, (fused[e].0, t));
        lemma_entries(terms, fused[e].0);
        assert forall|k: int| 0 <= k < fused.len() && k != e implies (#[trigger] fused[k]).0 != fused[e].0 by {
            assert(names[k] != names[e]);
        }
    }
}

proof fn lemma_terms_of_len(terms: Seq<(usize, RankTerm)>, entry: usize)
    ensures
        terms_of(terms, entry).len() == how_many(terms.len(), |k: int| terms[k].0 == entry),
    decreases terms.len(),
{
    if terms.len() > 0 {
        let rest = terms.drop_last();
        lemma_terms_of_len(rest, entry);
        lemma_how_many_alike(rest.len(), |k: int| rest[k].0 == entry, |k: int| terms[k].0 == entry);
    }
}

proof fn lemma_all_terms_len(lists: Seq<Vec<usize>>)
    ensures
        all_terms(lists).len() == crate::tally::sum_to(lists.len(), |l: int| lists[l]@.len()),
    decreases lists.len(),
{
    if lists.len() > 0 {
        let rest = lists.drop_last();
        lemma_all_terms_len(rest);
        lemma_sum_alike(rest.len(), |l: int| rest[l]@.len(), |l: int| lists[l]@.len());
    }
}

pub proof fn lemma_sum_alike(n: nat, f: spec_fn(int) -> nat, g: spec_fn(int) -> nat)
    requires
        forall|i: int| 0 <= i < n ==> #[trigger] f(i) == g(i),
    ensures
        crate::tally::sum_to(n, f) == crate::tally::sum_to(n, g),
    decreases n,
{
    if n > 0 {
        lemma_sum_alike((n - 1) as nat, f, g);
        assert(f(n - 1) == g(n - 1));
    }
}

/// A fused entry has as many places as there are, each once: together they are as many
/// as the rankings are long.
pub proof fn fused_places_are_counted(lists: Seq<Vec<usize>>, e: int)
    requires
        0 <= e < places(all_terms(lists)).len(),
    ensures
        places(all_terms(lists))[e].1.len() == how_many(
            all_terms(lists).len(),
            |k: int| all_terms(lists)[k].0 == places(all_terms(lists))[e].0,
        ),
        all_terms(lists).len() == crate::tally::sum_to(lists.len(), |l: int| lists[l]@.len()),
{
    let terms = all_terms(lists);
    let x = places(terms)[e].0;
    lemma_terms_of_len(terms, x);
    lemma_how_many_alike(
        terms.len(),
        |k: int| terms[k].0 == x,
        |k: int| all_terms(lists)[k].0 == places(all_terms(lists))[e].0,
    );
    lemma_all_terms_len(lists);
}

proof fn lemma_with_distance(rows: Seq<usize>, distances: Seq<Option<u64>>, x: (usize, u64))
    ensures
        with_distance(rows, distances).contains(x) <==> exists|n: int|
            0 <= n < rows.len() && n < distances.len() && #[trigger] rows[n] == x.0 && distances[n] == Some(x.1),
    decreases rows.len(),
{
    if rows.len() > 0 {
        let rest = rows.drop_last();
        lemma_with_distance(rest, distances, x);
        let n = rows.len() - 1;
        let prev = with_distance(rest, distances);
        if n < distances.len() && distances[n] is Some {
            lemma_push_contains(prev, (rows.last(), distances[n]->0), x);
        }
        if with_distance(rows, distances).contains(x) {
            if prev.contains(x) {
                let m = choose|m: int|
                    0 <= m < rest.len() && m < distances.len() && #[trigger] rest[m] == x.0 && distances[m] == Some(
                        x.1,
                    );
                assert(rows[m] == x.0);
            } else {
                assert(rows[n] == x.0);
            }
        }
        if exists|m: int|
            0 <= m < rows.len() && m < distances.len() && #[trigger] rows[m] == x.0 && distances[m] == Some(x.1) {
            let m = choose|m: int|
                0 <= m < rows.len() && m < distances.len() && #[trigger] rows[m] == x.0 && distances[m] == Some(x.1);
            if m < n {
                assert(rest[m] == x.0);
            }
        }
    }
}

/// A row is ranked by its vector just where it has a distance, and under that.
pub proof fn rows_with_distances_are_ranked(rows: Seq<usize>, distances: Seq<Option<u64>>, x: (usize, u64))
    ensures
        ranked(with_distance(rows, distances), false).contains(x) <==> exists|n: int|
            0 <= n < rows.len() && n < distances.len() && #[trigger] rows[n] == x.0 && distances[n] == Some(x.1),
{
    let s = with_distance(rows, distances);
    lemma_with_distance(rows, distances, x);
    ranking_orders_all(s, false);
    lemma_same_members(ranked(s, false), s, x);
}

proof fn lemma_above_zero(s: Seq<(usize, u64)>, x: (usize, u64))
    ensures
        above_zero(s).contains(x) <==> s.contains(x) && f64_below(0, x.1),
    decreases s.len(),
{
    if s.len() > 0 {
        let rest = s.drop_last();
        lemma_above_zero(rest, x);
        assert(s =~= rest.push(s.last()));
        lemma_push_contains(rest, s.last(), x);
        lemma_push_contains(above_zero(rest), s.last(), x);
    }
}

/// A row is ranked by its text just where its score is above zero, and under that.
pub proof fn rows_with_scores_are_ranked(rows: Seq<usize>, scores: Seq<u64>, x: (usize, u64))
    ensures
        above_zero(ranked(scored(rows, scores), true)).contains(x) <==> f64_below(0, x.1) && exists|n: int|
            0 <= n < rows.len() && n < scores.len() && #[trigger] rows[n] == x.0 && scores[n] == x.1,
{
    let s = scored(rows, scores);
    ranking_orders_all(s, true);
    lemma_same_members(ranked(s, true), s, x);
    lemma_above_zero(ranked(s, true), x);
    if s.contains(x) {
        let n = choose|n: int| 0 <= n < s.len() && s[n] == x;
        assert(rows[n] == x.0 && scores[n] == x.1);
    }
    if exists|n: int| 0 <= n < rows.len() && n < scores.len() && #[trigger] rows[n] == x.0 && scores[n] == x.1 {
        let n = choose|n: int| 0 <= n < rows.len() && n < scores.len() && #[trigger] rows[n] == x.0 && scores[n] == x.1;
        assert(s[n] == x);
    }
}

/// A ranking by text is in order.
pub proof fn text_rankings_are_in_order(rows: Seq<usize>, scores: Seq<u64>, i: int, j: int)
    requires
        0 <= i < j < above_zero(ranked(scored(rows, scores), true)).len(),
    ensures
        !f64_below(
            above_zero(ranked(scored(rows, scores), true))[i].1,
            above_zero(ranked(scored(rows, scores), true))[j].1,
        ),
{
    let s = ranked(scored(rows, scores), true);
    ranking_orders_all(scored(rows, scores), true);
    lemma_above_zero_ordered(s, i, j);
}

proof fn lemma_above_zero_ordered(s: Seq<(usize, u64)>, i: int, j: int)
    requires
        crate::ranking::in_order(s, true),
        0 <= i < j < above_zero(s).len(),
    ensures
        !f64_below(above_zero(s)[i].1, above_zero(s)[j].1),
    decreases s.len(),
{
    if s.len() > 0 {
        let rest = s.drop_last();
        assert(crate::ranking::in_order(rest, true)) by {
            assert forall|a: int, b: int| 0 <= a < b < rest.len() implies order_key((#[trigger] rest[a]).1, true)
                <= order_key((#[trigger] rest[b]).1, true) by {
                assert(s[a] == rest[a] && s[b] == rest[b]);
            }
        }
        let prev = above_zero(rest);
        if j < prev.len() {
            lemma_above_zero_ordered(rest, i, j);
        } else {
            let x = prev[i];
            assert(prev.contains(x));
            lemma_above_zero(rest, x);
            let k = choose|k: int| 0 <= k < rest.len() && rest[k] == x;
            assert(s[k] == x);
            assert(s[s.len() - 1] == s.last());
        }
    }
}

/// Without a condition every row is searched; with one those that it holds of; in
/// their order and each once.
pub proof fn searched_rows_meet_the_condition(n: nat, holds: Option<Seq<bool>>, x: usize)
    requires
        n <= usize::MAX,
    ensures
        candidate_rows(n, holds).contains(x) <==> x < n && (holds matches Some(h) ==> x < h.len() && h[x as int]),
        forall|i: int, j: int|
            0 <= i < j < candidate_rows(n, holds).len() ==> (#[trigger] candidate_rows(n, holds)[i])
                < (#[trigger] candidate_rows(n, holds)[j]) < n,
        forall|i: int| 0 <= i < candidate_rows(n, holds).len() ==> (#[trigger] candidate_rows(n, holds)[i]) < n,
    decreases n,
{
    if n > 0 {
        searched_rows_meet_the_condition((n - 1) as nat, holds, x);
        let prev = candidate_rows((n - 1) as nat, holds);
        lemma_push_contains(prev, (n - 1) as usize, x);
    }
}

/// A row takes part in a search by vector just where the condition holds of it and it
/// has a vector, and with that.
pub proof fn rows_with_vectors_take_part(rows: Seq<Json>, holds: Seq<bool>, column: Seq<char>, n: nat, i: int)
    requires
        n <= rows.len(),
        rows.len() <= usize::MAX,
        0 <= i < n,
    ensures
        i < holds.len() && holds[i] && stored_vector_in(rows[i], column) is Some ==> rows_with_vectors(
            rows,
            holds,
            column,
            n,
        ).contains((i as usize, stored_vector_in(rows[i], column)->0)),
        forall|k: int|
            0 <= k < rows_with_vectors(rows, holds, column, n).len() ==> {
                let (j, v) = #[trigger] rows_with_vectors(rows, holds, column, n)[k];
                j < n && j < holds.len() && holds[j as int] && stored_vector_in(rows[j as int], column) == Some(v)
            },
    decreases n,
{
    let prev = rows_with_vectors(rows, holds, column, (n - 1) as nat);
    if n > 1 {
        rows_with_vectors_take_part(
            rows,
            holds,
            column,
            (n - 1) as nat,
            if i < n - 1 {
                i
            } else {
                0
            },
        );
    } else {
        assert(rows_with_vectors(rows, holds, column, 0) =~= Seq::<(usize, Seq<u64>)>::empty());
    }
    if let Some(v) = stored_vector_in(rows[n - 1], column) {
        if n <= holds.len() && holds[n - 1] && stored_vector_in(rows[i], column) is Some {
            lemma_push_contains(prev, ((n - 1) as usize, v), (i as usize, stored_vector_in(rows[i], column)->0));
        }
    }
}

/// The vector of a list of numbers is these numbers, in their order; what is no number
/// is passed over.
pub proof fn vectors_are_the_numbers(items: Seq<Json>, more: Seq<Json>, x: Json, row: Json, column: Seq<char>)
    ensures
        numbers_in(items + more) == numbers_in(items) + numbers_in(more),
        numbers_in(seq![x]) == (match x {
            Json::Number(_) => seq![float_of(x)->0],
            _ => Seq::empty(),
        }),
        member(row, column) == Some(Json::Array(items)) ==> vector_in(row, column) == Some(numbers_in(items)) && (
        numbers_in(items).len() > 0 ==> stored_vector_in(row, column) == Some(numbers_in(items))),
        member(row, column) is None ==> vector_in(row, column) is None && stored_vector_in(row, column) is None,
    decreases more.len(),
{
    let one = seq![x];
    assert(one.drop_last() =~= Seq::<Json>::empty());
    assert(numbers_in(one.drop_last()) =~= Seq::<u64>::empty());
    if x is Number {
        assert(numbers_in(one) =~= seq![float_of(x)->0]);
    }
    if more.len() == 0 {
        assert(items + more =~= items);
        assert(numbers_in(more) =~= Seq::<u64>::empty());
        assert(numbers_in(items) + numbers_in(more) =~= numbers_in(items));
    } else {
        let rest = more.drop_last();
        vectors_are_the_numbers(items, rest, x, row, column);
        assert((items + more).drop_last() =~= items + rest);
        assert((items + more).last() == more.last());
        match float_of(more.last()) {
            Some(f) => {
                assert(numbers_in(items) + numbers_in(rest).push(f) =~= (numbers_in(items) + numbers_in(rest)).push(
                    f,
                ));
            },
            None => {},
        }
    }
}

/// A metric has its own name, and any other name is that of the straight distance.
pub proof fn metrics_have_names(name: Seq<char>)
    ensures
        metric_named(name) == Metric::Cosine <==> name == "cosine"@,
        metric_named(name) == Metric::Dot <==> name == "dot"@,
{
    reveal_strlit("cosine");
    reveal_strlit("dot");
    assert("cosine"@.len() != "dot"@.len());
}

/// What a ranking says of an entry is the number of its first place.
pub proof fn rankings_say_the_first(ranking: Seq<(usize, u64)>, entry: usize)
    ensures
        match said_of(ranking, entry) {
            Some(v) => exists|i: int|
                0 <= i < ranking.len() && #[trigger] ranking[i] == (entry, v) && forall|j: int|
                    0 <= j < i ==> (#[trigger] ranking[j]).0 != entry,
            None => forall|i: int| 0 <= i < ranking.len() ==> (#[trigger] ranking[i]).0 != entry,
        },
    decreases ranking.len(),
{
    if ranking.len() > 0 {
        if ranking[0].0 == entry {
            assert(ranking[0] == (entry, ranking[0].1));
        } else {
            let rest = ranking.drop_first();
            rankings_say_the_first(rest, entry);
            match said_of(rest, entry) {
                Some(v) => {
                    let i = choose|i: int|
                        0 <= i < rest.len() && #[trigger] rest[i] == (entry, v) && forall|j: int|
                            0 <= j < i ==> (#[trigger] rest[j]).0 != entry;
                    assert(ranking[i + 1] == (entry, v));
                    assert forall|j: int| 0 <= j < i + 1 implies (#[trigger] ranking[j]).0 != entry by {
                        if j > 0 {
                            assert(rest[j - 1] == ranking[j]);
                        }
                    }
                },
                None => {
                    assert forall|i: int| 0 <= i < ranking.len() implies (#[trigger] ranking[i]).0 != entry by {
                        if i > 0 {
                            assert(rest[i - 1] == ranking[i]);
                        }
                    }
                },
            }
        }
    }
}

/// A text in lower case, character by character.
pub open spec fn lowered_word(w: Seq<char>) -> Seq<char>
    decreases w.len(),
{
    if w.len() == 0 {
        Seq::empty()
    } else {
        lowered_word(w.drop_last()) + lowered_char(w.last())
    }
}

proof fn lemma_scanned_word(w: Seq<char>)
    requires
        forall|i: int| 0 <= i < w.len() ==> alnum(#[trigger] w[i]) || w[i] == '_',
    ensures
        scanned(w) == (Seq::<Seq<char>>::empty(), lowered_word(w)),
    decreases w.len(),
{
    if w.len() > 0 {
        let t = w.drop_last();
        assert forall|i: int| 0 <= i < t.len() implies alnum(#[trigger] t[i]) || t[i] == '_' by {
            assert(w[i] == t[i]);
        }
        lemma_scanned_word(t);
        assert(w[w.len() - 1] == w.last());
    }
}

/// A text of letters, digits and underscores is one token, in lower case, where it has
/// two characters and is no stop word, and else none.
pub proof fn a_word_is_one_token(w: Seq<char>)
    requires
        forall|i: int| 0 <= i < w.len() ==> alnum(#[trigger] w[i]) || w[i] == '_',
    ensures
        tokens_of(w) == (if lowered_word(w).len() >= 2 && !is_stop_word(lowered_word(w)) {
            seq![lowered_word(w)]
        } else {
            Seq::empty()
        }),
{
    lemma_scanned_word(w);
    assert(Seq::<Seq<char>>::empty().push(lowered_word(w)) =~= seq![lowered_word(w)]);
    if lowered_word(w).len() == 0 {
        assert(tokens_of(w) =~= Seq::<Seq<char>>::empty());
    }
}

/// How often a term stands in a document, and in how many documents it stands.
pub proof fn terms_are_counted(docs: Seq<Seq<Seq<char>>>, d: int, term: Seq<char>)
    requires
        0 <= d < docs.len(),
    ensures
        occurrences(docs[d], term) == how_many(docs[d].len(), |i: int| docs[d][i] == term),
        documents_with(docs, term) == how_many(docs.len(), |k: int| docs[k].contains(term)),
{
    lemma_occurrences(docs[d], term);
    lemma_documents(docs, term);
}

proof fn lemma_occurrences(tokens: Seq<Seq<char>>, term: Seq<char>)
    ensures
        occurrences(tokens, term) == how_many(tokens.len(), |i: int| tokens[i] == term),
        occurrences(tokens, term) > 0 <==> tokens.contains(term),
    decreases tokens.len(),
{
    if tokens.len() > 0 {
        let t = tokens.drop_last();
        lemma_occurrences(t, term);
        lemma_how_many_alike(t.len(), |i: int| t[i] == term, |i: int| tokens[i] == term);
        assert(tokens =~= t.push(tokens.last()));
        lemma_push_contains(t, tokens.last(), term);
    }
}

proof fn lemma_documents(docs: Seq<Seq<Seq<char>>>, term: Seq<char>)
    ensures
        documents_with(docs, term) == how_many(docs.len(), |k: int| docs[k].contains(term)),
    decreases docs.len(),
{
    if docs.len() > 0 {
        let t = docs.drop_last();
        lemma_documents(t, term);
        lemma_how_many_alike(t.len(), |k: int| t[k].contains(term), |k: int| docs[k].contains(term));
        lemma_occurrences(docs.last(), term);
    }
}

/// The terms of a query count one after the other: each that stands in the document,
/// with the number of documents that it stands in and how often it stands in this one.
pub proof fn query_terms_count_one_by_one(
    docs: Seq<Seq<Seq<char>>>,
    doc: int,
    a: Seq<Seq<char>>,
    b: Seq<Seq<char>>,
    term: Seq<char>,
)
    requires
        0 <= doc < docs.len(),
    ensures
        hits_in(docs, doc, a + b) == hits_in(docs, doc, a) + hits_in(docs, doc, b),
        hits_in(docs, doc, seq![term]) == (if docs[doc].contains(term) {
            seq![(documents_with(docs, term) as usize, occurrences(docs[doc], term) as usize)]
        } else {
            Seq::empty()
        }),
    decreases b.len(),
{
    lemma_occurrences(docs[doc], term);
    let one = seq![term];
    assert(one.drop_last() =~= Seq::<Seq<char>>::empty());
    assert(hits_in(docs, doc, one.drop_last()) =~= Seq::<(usize, usize)>::empty());
    if docs[doc].contains(term) {
        assert(hits_in(docs, doc, one) =~= seq![
            (documents_with(docs, term) as usize, occurrences(docs[doc], term) as usize),
        ]);
    }
    if b.len() == 0 {
        assert(a + b =~= a);
        assert(hits_in(docs, doc, b) =~= Seq::<(usize, usize)>::empty());
        assert(hits_in(docs, doc, a) + hits_in(docs, doc, b) =~= hits_in(docs, doc, a));
    } else {
        let rest = b.drop_last();
        query_terms_count_one_by_one(docs, doc, a, rest, term);
        assert((a + b).drop_last() =~= a + rest);
        assert((a + b).last() == b.last());
        let x = (documents_with(docs, b.last()) as usize, occurrences(docs[doc], b.last()) as usize);
        assert(hits_in(docs, doc, a) + hits_in(docs, doc, rest).push(x) =~= (hits_in(docs, doc, a) + hits_in(
            docs,
            doc,
            rest,
        )).push(x));
    }
}

/// The text of a row to search in holds the text of each of its columns.
pub proof fn row_texts_hold_their_columns(row: Json, columns: Seq<Seq<char>>, i: int)
    requires
        0 <= i < columns.len(),
    ensures
        member(row, columns[i]) matches Some(Json::String(s)) ==> column_text(row, columns[i]) == s,
        member(row, columns[i]) is None ==> column_text(row, columns[i]).len() == 0,
        exists|before: Seq<char>, after: Seq<char>|
            columns_text(row, columns) == #[trigger] (before + column_text(row, columns[i]) + after) && (before.len()
                == 0 || before.last() == ' ') && (after.len() == 0 || after[0] == ' ') && (i == 0 ==> before.len() == 0)
                && (i > 0 ==> before.len() > 0) && (i + 1 < columns.len() ==> after.len() > 0),
    decreases columns.len(),
{
    let last = column_text(row, columns.last());
    let none = Seq::<char>::empty();
    if columns.len() == 1 {
        assert(columns_text(row, columns) =~= none + last + none);
    } else {
        let rest = columns.drop_last();
        let head = columns_text(row, rest);
        if i == columns.len() - 1 {
            assert(columns_text(row, columns) =~= head.push(' ') + last + none);
            assert(head.push(' ').last() == ' ');
        } else {
            row_texts_hold_their_columns(row, rest, i);
            let (b, a) = choose|before: Seq<char>, after: Seq<char>|
                head == #[trigger] (before + column_text(row, rest[i]) + after) && (before.len() == 0 || before.last()
                    == ' ') && (after.len() == 0 || after[0] == ' ') && (i == 0 ==> before.len() == 0) && (i > 0
                    ==> before.len() > 0) && (i + 1 < rest.len() ==> after.len() > 0);
            let a2 = a + seq![' '] + last;
            assert(columns_text(row, columns) =~= b + column_text(row, columns[i]) + a2);
            assert(a2[0] == ' ');
        }
    }
}

/// A query is searched by vector where it has a column and a vector, by text where it
/// has columns and a text, and not at all without rows or for no results.
pub proof fn queries_say_how_to_search(n: nat, k: nat, column: Seq<char>, len: nat, columns: nat, text: Seq<char>)
    ensures
        match crate::ranking::ways_asked(n, k, column, len, columns, text) {
            Some((by_vector, by_text)) => n > 0 && k > 0 && (by_vector <==> column.len() > 0 && len > 0) && (by_text
                <==> columns > 0 && text.len() > 0) && (by_vector || by_text),
            None => n == 0 || k == 0 || ((column.len() == 0 || len == 0) && (columns == 0 || text.len() == 0)),
        },
{
}

/// Of the characters in ASCII the letters, the digits and the underscore make words, and
/// no others.
pub proof fn words_are_made_of_letters_and_digits(c: char)
    requires
        (c as u32) < 128,
    ensures
        in_word(c) <==> ('a' <= c && c <= 'z') || ('A' <= c && c <= 'Z') || ('0' <= c && c <= '9') || c == '_',
        crate::udf::is_word_char(c) <==> in_word(c),
        crate::merge_text::in_name(c) <==> in_word(c) || c == '.',
{
}

/// A column is searched by its text where it has one, else by its JSON text.
pub proof fn columns_are_searched_by_their_text(row: Json, column: Seq<char>, s: Seq<char>, v: Json)
    ensures
        member(row, column) == Some(Json::String(s)) ==> column_text(row, column) == s,
        member(row, column) == Some(v) && !(v is String) ==> column_text(row, column) == crate::json::json_shown(v),
        member(row, column) is None ==> column_text(row, column).len() == 0,
{
}

/// A stored vector is a list of numbers, or a text that is such a list in JSON; a list
/// without numbers is no vector.
pub proof fn vectors_are_lists_or_their_texts(row: Json, column: Seq<char>, s: Seq<char>, items: Seq<Json>)
    ensures
        numbers_in(items).len() > 0 && member(row, column) == Some(Json::Array(items)) ==> stored_vector_in(row, column)
            == Some(numbers_in(items)),
        numbers_in(items).len() > 0 && member(row, column) == Some(Json::String(s)) && crate::json::json_parsed(
            vstd::utf8::encode_utf8(s),
        ) == Ok::<Json, Seq<char>>(Json::Array(items)) ==> stored_vector_in(row, column) == Some(numbers_in(items)),
        stored_vector_in(row, column) matches Some(v) ==> v.len() > 0,
        member(row, column) is None ==> stored_vector_in(row, column) is None,
        member(row, column) == Some(Json::Array(items)) ==> vector_in(row, column) == Some(numbers_in(items)),
        member(row, column) is None ==> vector_in(row, column) is None,
{
}

} // verus!
