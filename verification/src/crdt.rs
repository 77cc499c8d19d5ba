//! Merging versions of rows: of the rows with one id the latest wins, and a
//! row whose latest version is marked deleted is gone.

use vstd::prelude::*;
use vstd::string::*;
use vstd::utf8::encode_utf8;
use crate::intern::Interner;
use crate::json::{copy_json, field_views, json_views, member, Json, JsonValue};
use crate::text::{bytes_before, copy_text, lemma_bytes_order_total, lemma_bytes_order_transitive, text_before,
    text_lt};

verus! {

/// The row's id: its `_rowid` where that is a text, else the id given with it.
pub open spec fn row_id(given: Seq<char>, row: Json) -> Seq<char> {
    match member(row, "_rowid"@) {
        Some(Json::String(s)) => s,
        _ => given,
    }
}

/// The row's `_version`; empty where it has none.
pub open spec fn row_version(row: Json) -> Seq<char> {
    match member(row, "_version"@) {
        Some(Json::String(s)) => s,
        _ => Seq::empty(),
    }
}

/// Whether the row is marked as deleted.
pub open spec fn row_deleted(row: Json) -> bool {
    member(row, "_deleted"@) == Some(Json::Bool(true))
}

/// The best version of a row so far.
pub struct Entry {
    pub id: Seq<char>,
    pub version: Seq<char>,
    pub row: Json,
}

/// A merge under way: the rows without an id, and the best version of each id
/// in the order in which the ids came.
pub struct Merge {
    pub plain: Seq<Json>,
    pub entries: Seq<Entry>,
}

/// Where an id stands.
pub open spec fn spot(entries: Seq<Entry>, id: Seq<char>) -> Option<int>
    decreases entries.len(),
{
    if entries.len() == 0 {
        None
    } else {
        match spot(entries.drop_last(), id) {
            Some(i) => Some(i),
            None => if entries.last().id == id {
                Some(entries.len() - 1)
            } else {
                None
            },
        }
    }
}

/// The entries after one more version: a later version replaces the one that
/// is there, a new id comes last.
pub open spec fn upsert(entries: Seq<Entry>, e: Entry) -> Seq<Entry> {
    match spot(entries, e.id) {
        Some(i) => if text_before(entries[i].version, e.version) {
            entries.update(i, e)
        } else {
            entries
        },
        None => entries.push(e),
    }
}

pub open spec fn entry_of(given: Seq<char>, row: Json) -> Entry {
    Entry { id: row_id(given, row), version: row_version(row), row }
}

/// The merge after one more row.
pub open spec fn step(m: Merge, given: Seq<char>, row: Json) -> Merge {
    if row_id(given, row).len() == 0 {
        if row_deleted(row) {
            m
        } else {
            Merge { plain: m.plain.push(row), entries: m.entries }
        }
    } else {
        Merge { plain: m.plain, entries: upsert(m.entries, entry_of(given, row)) }
    }
}

/// The merge after the given rows, each with the id given for it.
pub open spec fn merge_from(m: Merge, rows: Seq<(Seq<char>, Json)>) -> Merge
    decreases rows.len(),
{
    if rows.len() == 0 {
        m
    } else {
        step(merge_from(m, rows.drop_last()), rows.last().0, rows.last().1)
    }
}

pub open spec fn empty_merge() -> Merge {
    Merge { plain: Seq::empty(), entries: Seq::empty() }
}

pub open spec fn merge_of(rows: Seq<(Seq<char>, Json)>) -> Merge {
    merge_from(empty_merge(), rows)
}

/// The rows of the entries that are not deleted.
pub open spec fn live_rows(entries: Seq<Entry>) -> Seq<Json>
    decreases entries.len(),
{
    if entries.len() == 0 {
        Seq::empty()
    } else {
        let prev = live_rows(entries.drop_last());
        if row_deleted(entries.last().row) {
            prev
        } else {
            prev.push(entries.last().row)
        }
    }
}

/// The rows that a merge leaves: those without an id first.
pub open spec fn finished(m: Merge) -> Seq<Json> {
    m.plain + live_rows(m.entries)
}

/// What merging leaves of the rows.
pub open spec fn merged_rows(rows: Seq<(Seq<char>, Json)>) -> Seq<Json> {
    finished(merge_of(rows))
}

/// One more version for each entry in turn.
pub open spec fn absorb_entries(entries: Seq<Entry>, more: Seq<Entry>) -> Seq<Entry>
    decreases more.len(),
{
    if more.len() == 0 {
        entries
    } else {
        upsert(absorb_entries(entries, more.drop_last()), more.last())
    }
}

/// One merge continued by another.
pub open spec fn absorbed(m: Merge, more: Merge) -> Merge {
    Merge { plain: m.plain + more.plain, entries: absorb_entries(m.entries, more.entries) }
}

/// Merges in turn.
pub open spec fn absorbed_all(merges: Seq<Merge>) -> Merge
    decreases merges.len(),
{
    if merges.len() == 0 {
        empty_merge()
    } else {
        absorbed(absorbed_all(merges.drop_last()), merges.last())
    }
}

proof fn lemma_spot(entries: Seq<Entry>, id: Seq<char>)
    ensures
        match spot(entries, id) {
            Some(i) => 0 <= i < entries.len() && entries[i].id == id && forall|j: int|
                0 <= j < i ==> (#[trigger] entries[j]).id != id,
            None => forall|j: int| 0 <= j < entries.len() ==> (#[trigger] entries[j]).id != id,
        },
    decreases entries.len(),
{
    if entries.len() > 0 {
        let t = entries.drop_last();
        lemma_spot(t, id);
        match spot(t, id) {
            Some(i) => {
                assert(t[i] == entries[i]);
                assert forall|j: int| 0 <= j < i implies (#[trigger] entries[j]).id != id by {
                    assert(t[j] == entries[j]);
                }
            },
            None => {
                assert forall|j: int| 0 <= j < entries.len() - 1 implies (#[trigger] entries[j]).id
                    != id by {
                    assert(t[j] == entries[j]);
                }
            },
        }
    }
}

/// Setting an entry, or adding one, changes no other id's place.
proof fn lemma_spot_after(entries: Seq<Entry>, e: Entry, id: Seq<char>)
    ensures
        spot(upsert(entries, e), id) == if id == e.id && spot(entries, id) is None {
            Some(entries.len() as int)
        } else {
            spot(entries, id)
        },
{
    let after = upsert(entries, e);
    lemma_spot(entries, id);
    lemma_spot(entries, e.id);
    lemma_spot(after, id);
    match spot(entries, e.id) {
        Some(i) => {
            assert forall|j: int| 0 <= j < entries.len() implies (#[trigger] after[j]).id
                == entries[j].id by {}
            if spot(entries, id) is Some {
                let a = spot(entries, id)->0;
                assert(after[a].id == id);
                if spot(after, id) is Some {
                    let b = spot(after, id)->0;
                    assert(entries[b].id == id);
                }
            } else if spot(after, id) is Some {
                let b = spot(after, id)->0;
                assert(entries[b].id == id);
            }
        },
        None => {
            let n = entries.len() as int;
            assert(after[n] == e);
            if spot(entries, id) is Some {
                let a = spot(entries, id)->0;
                assert(after[a].id == id);
                let b = spot(after, id)->0;
                if b < n {
                    assert(entries[b].id == id);
                }
            } else if spot(after, id) is Some {
                let b = spot(after, id)->0;
                if b < n {
                    assert(entries[b].id == id);
                }
            }
        },
    }
}

proof fn lemma_not_before_transitive(a: Seq<char>, b: Seq<char>, c: Seq<char>)
    requires
        !text_before(a, b),
        !text_before(b, c),
    ensures
        !text_before(a, c),
{
    let (x, y, z) = (encode_utf8(a), encode_utf8(b), encode_utf8(c));
    lemma_bytes_order_total(x, y);
    lemma_bytes_order_total(y, z);
    lemma_bytes_order_total(x, z);
    if bytes_before(x, z) {
        if bytes_before(z, y) {
            lemma_bytes_order_transitive(x, z, y);
        }
    }
}

proof fn lemma_before_transitive(a: Seq<char>, b: Seq<char>, c: Seq<char>)
    requires
        text_before(a, b),
        text_before(b, c),
    ensures
        text_before(a, c),
{
    lemma_bytes_order_transitive(encode_utf8(a), encode_utf8(b), encode_utf8(c));
}

/// Absorbing entries leaves every id of theirs in place, with a version that is
/// not before theirs.
proof fn lemma_absorb_keeps(entries: Seq<Entry>, more: Seq<Entry>, k: int)
    requires
        0 <= k < more.len(),
    ensures
        ({
            let f = absorb_entries(entries, more);
            match spot(f, more[k].id) {
                Some(i) => 0 <= i < f.len() && !text_before(f[i].version, more[k].version),
                None => false,
            }
        }),
    decreases more.len(),
{
    let d = more.drop_last();
    let c = more.last();
    let g = absorb_entries(entries, d);
    let f = absorb_entries(entries, more);
    let id = more[k].id;
    lemma_spot_after(g, c, id);
    lemma_spot(f, id);
    lemma_spot(g, id);
    lemma_spot(g, c.id);
    lemma_bytes_order_total(encode_utf8(c.version), encode_utf8(c.version));
    if k < d.len() {
        assert(d[k] == more[k]);
        lemma_absorb_keeps(entries, d, k);
        let i = spot(g, id)->0;
        if c.id == id && text_before(g[i].version, c.version) {
            lemma_bytes_order_total(encode_utf8(c.version), encode_utf8(g[i].version));
            lemma_not_before_transitive(c.version, g[i].version, more[k].version);
        }
    }
}

/// A later version of the same id makes an earlier one superfluous.
proof fn lemma_later_replaces(entries: Seq<Entry>, c: Entry, x: Entry)
    requires
        c.id == x.id,
        text_before(c.version, x.version),
    ensures
        upsert(upsert(entries, c), x) == upsert(entries, x),
{
    lemma_spot(entries, x.id);
    lemma_spot_after(entries, c, x.id);
    match spot(entries, x.id) {
        Some(i) => {
            let w = entries[i].version;
            if text_before(w, c.version) {
                lemma_before_transitive(w, c.version, x.version);
                assert(entries.update(i, c).update(i, x) =~= entries.update(i, x));
            }
        },
        None => {
            assert(entries.push(c).update(entries.len() as int, x) =~= entries.push(x));
        },
    }
}

/// Versions of different ids can change places, where one id is there already.
proof fn lemma_upserts_commute(entries: Seq<Entry>, c: Entry, x: Entry)
    requires
        c.id != x.id,
        spot(entries, x.id) is Some,
    ensures
        upsert(upsert(entries, x), c) == upsert(upsert(entries, c), x),
{
    lemma_spot(entries, x.id);
    lemma_spot(entries, c.id);
    lemma_spot_after(entries, c, x.id);
    lemma_spot_after(entries, x, c.id);
    let a = upsert(upsert(entries, x), c);
    let b = upsert(upsert(entries, c), x);
    assert(a =~= b);
}

proof fn lemma_absorb_update(entries: Seq<Entry>, more: Seq<Entry>, k: int, x: Entry)
    requires
        0 <= k < more.len(),
        more[k].id == x.id,
        text_before(more[k].version, x.version),
        forall|j: int| 0 <= j < more.len() && j != k ==> (#[trigger] more[j]).id != x.id,
    ensures
        absorb_entries(entries, more.update(k, x)) == upsert(absorb_entries(entries, more), x),
    decreases more.len(),
{
    let d = more.drop_last();
    let c = more.last();
    let n = more.len() - 1;
    let changed = more.update(k, x);
    if k == n {
        assert(changed.drop_last() =~= d);
        lemma_later_replaces(absorb_entries(entries, d), c, x);
    } else {
        assert(changed.drop_last() =~= d.update(k, x));
        assert(changed.last() == c);
        assert(more[n].id != x.id);
        assert forall|j: int| 0 <= j < d.len() && j != k implies (#[trigger] d[j]).id != x.id by {
            assert(d[j] == more[j]);
        }
        lemma_absorb_update(entries, d, k, x);
        lemma_absorb_keeps(entries, d, k);
        lemma_upserts_commute(absorb_entries(entries, d), c, x);
    }
}

/// No id stands twice.
pub open spec fn ids_distinct(entries: Seq<Entry>) -> bool {
    forall|i: int, j: int|
        0 <= i < entries.len() && 0 <= j < entries.len() && i != j ==> (#[trigger] entries[i]).id != (
        #[trigger] entries[j]).id
}

proof fn lemma_upsert_distinct(entries: Seq<Entry>, e: Entry)
    requires
        ids_distinct(entries),
    ensures
        ids_distinct(upsert(entries, e)),
{
    lemma_spot(entries, e.id);
}

proof fn lemma_absorb_step(entries: Seq<Entry>, more: Seq<Entry>, x: Entry)
    requires
        ids_distinct(more),
    ensures
        absorb_entries(entries, upsert(more, x)) == upsert(absorb_entries(entries, more), x),
{
    lemma_spot(more, x.id);
    match spot(more, x.id) {
        Some(k) => {
            if text_before(more[k].version, x.version) {
                lemma_absorb_update(entries, more, k, x);
            } else {
                lemma_absorb_keeps(entries, more, k);
                let f = absorb_entries(entries, more);
                let i = spot(f, x.id)->0;
                lemma_not_before_transitive(f[i].version, more[k].version, x.version);
            }
        },
        None => {
            assert(more.push(x).drop_last() =~= more);
        },
    }
}

proof fn lemma_merge_distinct(m: Merge, rows: Seq<(Seq<char>, Json)>)
    requires
        ids_distinct(m.entries),
    ensures
        ids_distinct(merge_from(m, rows).entries),
    decreases rows.len(),
{
    if rows.len() > 0 {
        lemma_merge_distinct(m, rows.drop_last());
        lemma_upsert_distinct(
            merge_from(m, rows.drop_last()).entries,
            entry_of(rows.last().0, rows.last().1),
        );
    }
}

/// Continuing a merge by the merge of further rows is merging those rows.
pub proof fn absorbing_is_merging_on(m: Merge, rows: Seq<(Seq<char>, Json)>)
    ensures
        absorbed(m, merge_of(rows)) == merge_from(m, rows),
    decreases rows.len(),
{
    let part = merge_of(rows);
    if rows.len() == 0 {
        assert(m.plain + Seq::<Json>::empty() =~= m.plain);
    } else {
        let t = rows.drop_last();
        let (given, row) = rows.last();
        absorbing_is_merging_on(m, t);
        lemma_merge_distinct(empty_merge(), t);
        let before = merge_of(t);
        if row_id(given, row).len() == 0 {
            assert(m.plain + before.plain.push(row) =~= (m.plain + before.plain).push(row));
        } else {
            lemma_absorb_step(m.entries, before.entries, entry_of(given, row));
        }
    }
}

/// Splitting the rows into chunks, merging each and joining the results in
/// order leaves the same rows as merging them all at once.
pub proof fn chunked_merge_is_whole_merge(chunks: Seq<Seq<(Seq<char>, Json)>>)
    ensures
        absorbed_all(Seq::new(chunks.len(), |i: int| merge_of(chunks[i]))) == merge_of(
            chunks.flatten(),
        ),
    decreases chunks.len(),
{
    let merges = Seq::new(chunks.len(), |i: int| merge_of(chunks[i]));
    if chunks.len() == 0 {
        assert(chunks.flatten() =~= Seq::<(Seq<char>, Json)>::empty());
    } else {
        let t = chunks.drop_last();
        chunked_merge_is_whole_merge(t);
        assert(merges.drop_last() =~= Seq::new(t.len(), |i: int| merge_of(t[i])));
        absorbing_is_merging_on(absorbed_all(merges.drop_last()), chunks.last());
        lemma_merge_append(empty_merge(), t.flatten(), chunks.last());
        chunks.lemma_flatten_and_flatten_alt_are_equivalent();
        t.lemma_flatten_and_flatten_alt_are_equivalent();
    }
}

proof fn lemma_merge_append(m: Merge, a: Seq<(Seq<char>, Json)>, b: Seq<(Seq<char>, Json)>)
    ensures
        merge_from(m, a + b) == merge_from(merge_from(m, a), b),
    decreases b.len(),
{
    if b.len() == 0 {
        assert(a + b =~= a);
    } else {
        lemma_merge_append(m, a, b.drop_last());
        assert((a + b).drop_last() =~= a + b.drop_last());
    }
}

/// Of every row that has an id, the merge keeps a version that is not before
/// the row's own; every id is kept once.
pub proof fn latest_version_wins(rows: Seq<(Seq<char>, Json)>, k: int)
    requires
        0 <= k < rows.len(),
        row_id(rows[k].0, rows[k].1).len() > 0,
    ensures
        ids_distinct(merge_of(rows).entries),
        ({
            let e = merge_of(rows).entries;
            match spot(e, row_id(rows[k].0, rows[k].1)) {
                Some(i) => 0 <= i < e.len() && !text_before(e[i].version, row_version(rows[k].1)),
                None => false,
            }
        }),
    decreases rows.len(),
{
    lemma_merge_distinct(empty_merge(), rows);
    let t = rows.drop_last();
    let g = merge_of(t).entries;
    let (given, row) = rows.last();
    let e = entry_of(given, row);
    let id = row_id(rows[k].0, rows[k].1);
    lemma_spot_after(g, e, id);
    lemma_spot(g, id);
    lemma_spot(merge_of(rows).entries, id);
    lemma_spot(g, e.id);
    lemma_bytes_order_total(encode_utf8(e.version), encode_utf8(e.version));
    if k < t.len() {
        assert(t[k] == rows[k]);
        latest_version_wins(t, k);
        let i = spot(g, id)->0;
        if e.id == id && e.id.len() > 0 && text_before(g[i].version, e.version) {
            lemma_bytes_order_total(encode_utf8(e.version), encode_utf8(g[i].version));
            lemma_not_before_transitive(e.version, g[i].version, row_version(rows[k].1));
        }
    }
}

/// A row with an id is the latest of its id: every other row of that id has an
/// earlier version.
pub open spec fn is_latest(rows: Seq<(Seq<char>, Json)>, r: (Seq<char>, Json)) -> bool {
    &&& rows.contains(r)
    &&& row_id(r.0, r.1).len() > 0
    &&& forall|j: int|
        0 <= j < rows.len() && row_id((#[trigger] rows[j]).0, rows[j].1) == row_id(r.0, r.1) ==> rows[j] == r
            || text_before(row_version(rows[j].1), row_version(r.1))
}

/// Every entry of a merge is one of the rows.
proof fn lemma_entry_from_rows(rows: Seq<(Seq<char>, Json)>, i: int)
    requires
        0 <= i < merge_of(rows).entries.len(),
    ensures
        exists|j: int|
            0 <= j < rows.len() && entry_of((#[trigger] rows[j]).0, rows[j].1) == merge_of(rows).entries[i],
    decreases rows.len(),
{
    if rows.len() == 0 {
    } else {
        let t = rows.drop_last();
        let before = merge_of(t).entries;
        let after = merge_of(rows).entries;
        let last = entry_of(rows.last().0, rows.last().1);
        lemma_spot(before, last.id);
        if i < before.len() && after[i] == before[i] {
            lemma_entry_from_rows(t, i);
            let j = choose|j: int|
                0 <= j < t.len() && entry_of((#[trigger] t[j]).0, t[j].1) == before[i];
            assert(rows[j] == t[j]);
        } else {
            assert(after[i] == last);
            assert(rows[rows.len() - 1] == rows.last());
        }
    }
}

proof fn lemma_live_contains(entries: Seq<Entry>, i: int)
    requires
        0 <= i < entries.len(),
        !row_deleted(entries[i].row),
    ensures
        live_rows(entries).contains(entries[i].row),
    decreases entries.len(),
{
    let t = entries.drop_last();
    let prev = live_rows(t);
    let all = live_rows(entries);
    if i < t.len() {
        lemma_live_contains(t, i);
        let k = choose|k: int| 0 <= k < prev.len() && prev[k] == t[i].row;
        assert(all[k] == entries[i].row);
    } else {
        assert(all[prev.len() as int] == entries[i].row);
    }
}

/// The latest row of an id is the one that is kept for it, whatever the order of
/// the rows; unless it is marked as deleted, it is left by the merge.
pub proof fn latest_row_is_kept(rows: Seq<(Seq<char>, Json)>, r: (Seq<char>, Json))
    requires
        is_latest(rows, r),
    ensures
        ({
            let e = merge_of(rows).entries;
            match spot(e, row_id(r.0, r.1)) {
                Some(i) => 0 <= i < e.len() && e[i].row == r.1,
                None => false,
            }
        }),
        !row_deleted(r.1) ==> merged_rows(rows).contains(r.1),
{
    let k = choose|k: int| 0 <= k < rows.len() && rows[k] == r;
    let id = row_id(r.0, r.1);
    latest_version_wins(rows, k);
    let m = merge_of(rows);
    let e = m.entries;
    let i = spot(e, id)->0;
    lemma_spot(e, id);
    lemma_entry_from_rows(rows, i);
    let j = choose|j: int| 0 <= j < rows.len() && entry_of((#[trigger] rows[j]).0, rows[j].1) == e[i];
    assert(row_id(rows[j].0, rows[j].1) == id);
    if !row_deleted(r.1) {
        lemma_live_contains(e, i);
        let live = live_rows(e);
        let n = choose|n: int| 0 <= n < live.len() && live[n] == r.1;
        assert(merged_rows(rows)[m.plain.len() + n] == r.1);
    }
}

/// Readers that see the same rows in another order keep the same latest row of
/// each id.
pub proof fn merge_order_does_not_matter(
    rows: Seq<(Seq<char>, Json)>,
    others: Seq<(Seq<char>, Json)>,
    r: (Seq<char>, Json),
)
    requires
        forall|x: (Seq<char>, Json)| #[trigger] rows.contains(x) <==> others.contains(x),
        is_latest(rows, r),
    ensures
        is_latest(others, r),
        !row_deleted(r.1) ==> merged_rows(rows).contains(r.1) && merged_rows(others).contains(r.1),
{
    assert forall|j: int|
        0 <= j < others.len() && row_id((#[trigger] others[j]).0, others[j].1) == row_id(r.0, r.1) implies others[j]
        == r || text_before(row_version(others[j].1), row_version(r.1)) by {
        assert(others.contains(others[j]));
        assert(rows.contains(others[j]));
        let i = choose|i: int| 0 <= i < rows.len() && rows[i] == others[j];
        assert(row_id(rows[i].0, rows[i].1) == row_id(r.0, r.1));
    }
    assert(rows.contains(r));
    assert(others.contains(r));
    latest_row_is_kept(rows, r);
    latest_row_is_kept(others, r);
}

/// Row `j` wins among the rows of its id: the rows of that id before it have earlier
/// versions, and those after it no later ones.
pub open spec fn wins(rows: Seq<(Seq<char>, Json)>, j: int) -> bool {
    forall|m: int|
        0 <= m < rows.len() && m != j && row_id((#[trigger] rows[m]).0, rows[m].1) == row_id(rows[j].0, rows[j].1)
            ==> if m < j {
            text_before(row_version(rows[m].1), row_version(rows[j].1))
        } else {
            !text_before(row_version(rows[j].1), row_version(rows[m].1))
        }
}

proof fn lemma_entries_win(rows: Seq<(Seq<char>, Json)>, i: int)
    requires
        0 <= i < merge_of(rows).entries.len(),
    ensures
        exists|j: int|
            0 <= j < rows.len() && entry_of((#[trigger] rows[j]).0, rows[j].1) == merge_of(rows).entries[i] && wins(
                rows,
                j,
            ) && row_id(rows[j].0, rows[j].1).len() > 0,
    decreases rows.len(),
{
    if rows.len() > 0 {
        let t = rows.drop_last();
        let before = merge_of(t).entries;
        let after = merge_of(rows).entries;
        let n = rows.len() - 1;
        let (given, row) = rows.last();
        let last = entry_of(given, row);
        assert(rows[n] == (given, row));
        lemma_spot(before, last.id);
        lemma_merge_distinct(empty_merge(), t);
        if i < before.len() && after[i] == before[i] {
            lemma_entries_win(t, i);
            let j = choose|j: int|
                0 <= j < t.len() && entry_of((#[trigger] t[j]).0, t[j].1) == before[i] && wins(t, j) && row_id(
                    t[j].0,
                    t[j].1,
                ).len() > 0;
            assert(rows[j] == t[j]);
            assert(wins(rows, j)) by {
                assert forall|m: int|
                    0 <= m < rows.len() && m != j && row_id((#[trigger] rows[m]).0, rows[m].1) == row_id(
                        rows[j].0,
                        rows[j].1,
                    ) implies if m < j {
                    text_before(row_version(rows[m].1), row_version(rows[j].1))
                } else {
                    !text_before(row_version(rows[j].1), row_version(rows[m].1))
                } by {
                    if m < n {
                        assert(t[m] == rows[m]);
                    } else {
                        assert(last.id == before[i].id);
                        lemma_spot(before, last.id);
                        let at = spot(before, last.id)->0;
                        assert(at == i);
                        if text_before(before[i].version, last.version) {
                            assert(after[i] == last);
                            lemma_bytes_order_total(
                                encode_utf8(last.version),
                                encode_utf8(last.version),
                            );
                            assert(before[i] == last);
                        }
                    }
                }
            }
        } else {
            assert(after[i] == last);
            assert(wins(rows, n)) by {
                assert forall|m: int|
                    0 <= m < rows.len() && m != n && row_id((#[trigger] rows[m]).0, rows[m].1) == row_id(
                        rows[n].0,
                        rows[n].1,
                    ) implies text_before(row_version(rows[m].1), row_version(rows[n].1)) by {
                    assert(t[m] == rows[m]);
                    latest_version_wins(t, m);
                    let at = spot(before, last.id)->0;
                    assert(at == i);
                    let x = encode_utf8(row_version(rows[m].1));
                    let y = encode_utf8(before[i].version);
                    let z = encode_utf8(last.version);
                    assert(text_before(before[i].version, last.version));
                    lemma_bytes_order_total(x, y);
                    if bytes_before(x, y) {
                        lemma_bytes_order_transitive(x, y, z);
                    }
                }
            }
        }
    }
}

proof fn lemma_live_from(entries: Seq<Entry>, row: Json)
    ensures
        live_rows(entries).contains(row) ==> exists|i: int|
            0 <= i < entries.len() && (#[trigger] entries[i]).row == row && !row_deleted(row),
    decreases entries.len(),
{
    if entries.len() > 0 {
        let t = entries.drop_last();
        lemma_live_from(t, row);
        let prev = live_rows(t);
        if live_rows(entries).contains(row) {
            let k = choose|k: int| 0 <= k < live_rows(entries).len() && live_rows(entries)[k] == row;
            if k < prev.len() {
                assert(prev[k] == row);
                assert(prev.contains(row));
                let i = choose|i: int| 0 <= i < t.len() && (#[trigger] t[i]).row == row && !row_deleted(row);
                assert(entries[i].row == row);
            } else {
                assert(entries[entries.len() - 1].row == row);
            }
        }
    }
}

proof fn lemma_plain_from(rows: Seq<(Seq<char>, Json)>, row: Json)
    ensures
        merge_of(rows).plain.contains(row) <==> exists|j: int|
            0 <= j < rows.len() && (#[trigger] rows[j]).1 == row && row_id(rows[j].0, row).len() == 0 && !row_deleted(
                row,
            ),
    decreases rows.len(),
{
    if rows.len() > 0 {
        let t = rows.drop_last();
        lemma_plain_from(t, row);
        let prev = merge_of(t).plain;
        let all = merge_of(rows).plain;
        let (given, last) = rows.last();
        assert(rows[rows.len() - 1] == (given, last));
        if all.contains(row) {
            let k = choose|k: int| 0 <= k < all.len() && all[k] == row;
            if k < prev.len() {
                assert(prev[k] == row);
                assert(prev.contains(row));
                let j = choose|j: int|
                    0 <= j < t.len() && (#[trigger] t[j]).1 == row && row_id(t[j].0, row).len() == 0 && !row_deleted(
                        row,
                    );
                assert(rows[j] == t[j]);
            } else {
                assert(rows[rows.len() - 1].1 == row);
            }
        }
        if exists|j: int|
            0 <= j < rows.len() && (#[trigger] rows[j]).1 == row && row_id(rows[j].0, row).len() == 0 && !row_deleted(
                row,
            ) {
            let j = choose|j: int|
                0 <= j < rows.len() && (#[trigger] rows[j]).1 == row && row_id(rows[j].0, row).len() == 0
                    && !row_deleted(row);
            if j < t.len() {
                assert(t[j] == rows[j]);
                let k = choose|k: int| 0 <= k < prev.len() && prev[k] == row;
                assert(all[k] == row);
            } else {
                assert(all[prev.len() as int] == row);
            }
        }
    } else {
        assert(merge_of(rows).plain =~= Seq::<Json>::empty());
    }
}

/// A merge leaves a row just where it is not marked as deleted and has no id, or wins
/// among the rows of its id: of these it has the latest version, and comes first where
/// several have that.
pub proof fn merge_leaves_the_winners(rows: Seq<(Seq<char>, Json)>, row: Json)
    ensures
        merged_rows(rows).contains(row) <==> member(row, "_deleted"@) != Some(Json::Bool(true)) && exists|j: int|
            0 <= j < rows.len() && (#[trigger] rows[j]).1 == row && (row_id(rows[j].0, row).len() == 0 || wins(rows, j)),
{
    let m = merge_of(rows);
    let live = live_rows(m.entries);
    let all = merged_rows(rows);
    lemma_plain_from(rows, row);
    lemma_live_from(m.entries, row);
    if all.contains(row) {
        let k = choose|k: int| 0 <= k < all.len() && all[k] == row;
        if k < m.plain.len() {
            assert(m.plain[k] == row);
            assert(m.plain.contains(row));
        } else {
            assert(live[k - m.plain.len()] == row);
            assert(live.contains(row));
            let i = choose|i: int| 0 <= i < m.entries.len() && (#[trigger] m.entries[i]).row == row && !row_deleted(row);
            lemma_entries_win(rows, i);
        }
    }
    if member(row, "_deleted"@) != Some(Json::Bool(true)) && exists|j: int|
        0 <= j < rows.len() && (#[trigger] rows[j]).1 == row && (row_id(rows[j].0, row).len() == 0 || wins(rows, j)) {
        let j = choose|j: int|
            0 <= j < rows.len() && (#[trigger] rows[j]).1 == row && (row_id(rows[j].0, row).len() == 0 || wins(
                rows,
                j,
            ));
        if row_id(rows[j].0, row).len() == 0 {
            assert(m.plain.contains(row));
            let k = choose|k: int| 0 <= k < m.plain.len() && m.plain[k] == row;
            assert(all[k] == row);
        } else {
            latest_version_wins(rows, j);
            let id = row_id(rows[j].0, row);
            let i = spot(m.entries, id)->0;
            lemma_spot(m.entries, id);
            lemma_entries_win(rows, i);
            let w = choose|w: int|
                0 <= w < rows.len() && entry_of((#[trigger] rows[w]).0, rows[w].1) == m.entries[i] && wins(rows, w)
                    && row_id(rows[w].0, rows[w].1).len() > 0;
            assert(w == j) by {
                let x = encode_utf8(row_version(rows[w].1));
                let y = encode_utf8(row_version(rows[j].1));
                lemma_bytes_order_total(x, y);
                assert(row_id(rows[w].0, rows[w].1) == id);
            }
            lemma_live_contains(m.entries, i);
            let k = choose|k: int| 0 <= k < live.len() && live[k] == row;
            assert(all[m.plain.len() + k] == row);
        }
    }
}

/// The id of a row is its own, where that is a text, else the one given with it; its
/// version is the text that it has as such.
pub proof fn rows_tell_their_id_and_version(given: Seq<char>, row: Json, id: Seq<char>, version: Seq<char>)
    ensures
        member(row, "_rowid"@) == Some(Json::String(id)) ==> row_id(given, row) == id,
        !(member(row, "_rowid"@) matches Some(Json::String(_))) ==> row_id(given, row) == given,
        member(row, "_version"@) == Some(Json::String(version)) ==> row_version(row) == version,
        !(member(row, "_version"@) matches Some(Json::String(_))) ==> row_version(row).len() == 0,
{
}

/// No row that the merge leaves is marked as deleted, but for rows without an
/// id, which are dropped at once.
pub proof fn no_deleted_row_is_left(rows: Seq<(Seq<char>, Json)>, i: int)
    requires
        0 <= i < merged_rows(rows).len(),
    ensures
        !row_deleted(merged_rows(rows)[i]),
{
    let m = merge_of(rows);
    lemma_plain_live(rows);
    lemma_live_rows(m.entries);
    if i >= m.plain.len() {
        assert(merged_rows(rows)[i] == live_rows(m.entries)[i - m.plain.len()]);
    }
}

proof fn lemma_plain_live(rows: Seq<(Seq<char>, Json)>)
    ensures
        forall|i: int|
            0 <= i < merge_of(rows).plain.len() ==> !row_deleted(#[trigger] merge_of(rows).plain[i]),
    decreases rows.len(),
{
    if rows.len() > 0 {
        lemma_plain_live(rows.drop_last());
        let before = merge_of(rows.drop_last()).plain;
        let after = merge_of(rows).plain;
        assert forall|i: int| 0 <= i < after.len() implies !row_deleted(#[trigger] after[i]) by {
            if i < before.len() {
                assert(after[i] == before[i]);
            }
        }
    }
}

proof fn lemma_live_rows(entries: Seq<Entry>)
    ensures
        forall|i: int|
            0 <= i < live_rows(entries).len() ==> !row_deleted(#[trigger] live_rows(entries)[i]),
    decreases entries.len(),
{
    if entries.len() > 0 {
        lemma_live_rows(entries.drop_last());
        let before = live_rows(entries.drop_last());
        let after = live_rows(entries);
        assert forall|i: int| 0 <= i < after.len() implies !row_deleted(#[trigger] after[i]) by {
            if i < before.len() {
                assert(after[i] == before[i]);
            }
        }
    }
}

/// A merge of one part of the rows.
pub struct ChunkMerge {
    pub plain: Vec<JsonValue>,
    /// Id, version, row.
    pub entries: Vec<(String, String, JsonValue)>,
}

pub open spec fn entry_views(v: Seq<(String, String, JsonValue)>) -> Seq<Entry> {
    Seq::new(v.len(), |i: int| Entry { id: v[i].0@, version: v[i].1@, row: v[i].2@ })
}

impl View for ChunkMerge {
    type V = Merge;

    open spec fn view(&self) -> Merge {
        Merge { plain: json_views(self.plain@), entries: entry_views(self.entries@) }
    }
}

pub open spec fn merge_views(v: Seq<ChunkMerge>) -> Seq<Merge> {
    Seq::new(v.len(), |i: int| v[i]@)
}

/// The table numbers the ids of the entries.
spec fn indexed(index: Interner, entries: Seq<Entry>) -> bool {
    index.wf() && index.keys().no_duplicates() && index.keys() =~= Seq::new(
        entries.len(),
        |i: int| entries[i].id,
    )
}

fn upsert_entry(
    entries: &mut Vec<(String, String, JsonValue)>,
    index: &mut Interner,
    id: &str,
    version: &str,
    row: &JsonValue,
)
    requires
        indexed(*old(index), entry_views(old(entries)@)),
    ensures
        entry_views(final(entries)@) == upsert(
            entry_views(old(entries)@),
            Entry { id: id@, version: version@, row: row@ },
        ),
        indexed(*final(index), entry_views(final(entries)@)),
{
    let ghost before = entry_views(entries@);
    let ghost e = Entry { id: id@, version: version@, row: row@ };
    proof {
        lemma_spot(before, id@);
    }
    match index.get(id) {
        Some(i) => {
            proof {
                assert(before[i as int].id == index.keys()[i as int]);
                if spot(before, id@) is Some {
                    let j = spot(before, id@)->0;
                    assert(index.keys()[j] == before[j].id);
                }
                assert(spot(before, id@) == Some(i as int));
            }
            if text_lt(&entries[i].1, version) {
                entries[i] = (copy_text(id), copy_text(version), copy_json(row));
                proof {
                    assert(entry_views(entries@) =~= before.update(i as int, e));
                }
            }
        },
        None => {
            proof {
                if spot(before, id@) is Some {
                    let j = spot(before, id@)->0;
                    assert(index.keys()[j] == before[j].id);
                    assert(index.keys().contains(id@));
                }
            }
            index.add(id);
            entries.push((copy_text(id), copy_text(version), copy_json(row)));
            proof {
                assert(entry_views(entries@) =~= before.push(e));
                let ghost_keys = Seq::new(
                    entry_views(entries@).len(),
                    |i: int| entry_views(entries@)[i].id,
                );
                assert(index.keys() =~= ghost_keys);
                assert(index.keys().no_duplicates()) by {
                    lemma_interner_distinct(*index);
                }
            }
        },
    }
}

proof fn lemma_interner_distinct(index: Interner)
    requires
        index.wf(),
    ensures
        index.keys().no_duplicates(),
{
    index.keys_are_distinct();
}

/// The id, version and deletion mark of a row.
fn id_of(given: &str, row: &JsonValue) -> (r: String)
    ensures
        r@ == row_id(given@, row@),
{
    match row.get("_rowid") {
        Some(JsonValue::String(s)) => copy_text(s),
        _ => copy_text(given),
    }
}

fn version_of(row: &JsonValue) -> (r: String)
    ensures
        r@ == row_version(row@),
{
    match row.get("_version") {
        Some(JsonValue::String(s)) => copy_text(s),
        _ => String::new(),
    }
}

fn deleted(row: &JsonValue) -> (r: bool)
    ensures
        r == row_deleted(row@),
{
    match row.get("_deleted") {
        Some(JsonValue::Bool(b)) => *b,
        _ => false,
    }
}

/// Merges one part of the rows.
pub fn merge_chunk(rows: &[(String, JsonValue)]) -> (r: ChunkMerge)
    ensures
        r@ == merge_of(field_views(rows@)),
{
    let mut plain: Vec<JsonValue> = Vec::new();
    let mut entries: Vec<(String, String, JsonValue)> = Vec::new();
    let mut index = Interner::new();
    let ghost all = field_views(rows@);
    let mut i: usize = 0;
    proof {
        assert(all.take(0) =~= Seq::<(Seq<char>, Json)>::empty());
        assert(json_views(plain@) =~= Seq::<Json>::empty());
        assert(entry_views(entries@) =~= Seq::<Entry>::empty());
        lemma_interner_distinct(index);
    }
    while i < rows.len()
        invariant
            i <= rows@.len(),
            all == field_views(rows@),
            indexed(index, entry_views(entries@)),
            merge_of(all.take(i as int)) == (Merge {
                plain: json_views(plain@),
                entries: entry_views(entries@),
            }),
        decreases rows@.len() - i,
    {
        let row = &rows[i].1;
        proof {
            assert(all.take(i as int + 1).drop_last() =~= all.take(i as int));
            assert(all.take(i as int + 1).last() == all[i as int]);
            assert(all[i as int] == (rows@[i as int].0@, rows@[i as int].1@));
        }
        let id = id_of(&rows[i].0, row);
        if id.as_str().is_empty() {
            if !deleted(row) {
                let ghost before = json_views(plain@);
                plain.push(copy_json(row));
                proof {
                    assert(json_views(plain@) =~= before.push(row@));
                }
            }
        } else {
            let version = version_of(row);
            upsert_entry(&mut entries, &mut index, &id, &version, row);
        }
        i = i + 1;
    }
    proof {
        assert(all.take(i as int) =~= all);
    }
    ChunkMerge { plain, entries }
}

/// Joins the merges of consecutive parts of the rows.
pub fn combine_chunks(chunks: &[ChunkMerge]) -> (r: ChunkMerge)
    ensures
        r@ == absorbed_all(merge_views(chunks@)),
{
    let mut plain: Vec<JsonValue> = Vec::new();
    let mut entries: Vec<(String, String, JsonValue)> = Vec::new();
    let mut index = Interner::new();
    let ghost all = merge_views(chunks@);
    let mut i: usize = 0;
    proof {
        assert(all.take(0) =~= Seq::<Merge>::empty());
        assert(json_views(plain@) =~= Seq::<Json>::empty());
        assert(entry_views(entries@) =~= Seq::<Entry>::empty());
        lemma_interner_distinct(index);
    }
    while i < chunks.len()
        invariant
            i <= chunks@.len(),
            all == merge_views(chunks@),
            indexed(index, entry_views(entries@)),
            absorbed_all(all.take(i as int)) == (Merge {
                plain: json_views(plain@),
                entries: entry_views(entries@),
            }),
        decreases chunks@.len() - i,
    {
        let chunk = &chunks[i];
        let ghost plain0 = json_views(plain@);
        let ghost more_plain = json_views(chunk.plain@);
        let ghost entries0 = entry_views(entries@);
        let ghost more = entry_views(chunk.entries@);
        let mut j: usize = 0;
        proof {
            assert(plain0 + more_plain.take(0) =~= plain0);
        }
        while j < chunk.plain.len()
            invariant
                j <= chunk.plain@.len(),
                more_plain == json_views(chunk.plain@),
                json_views(plain@) == plain0 + more_plain.take(j as int),
            decreases chunk.plain@.len() - j,
        {
            let ghost before = json_views(plain@);
            plain.push(copy_json(&chunk.plain[j]));
            proof {
                let x = more_plain[j as int];
                assert(json_views(plain@) =~= before.push(x));
                assert(more_plain.take(j as int + 1) =~= more_plain.take(j as int).push(x));
                assert(plain0 + more_plain.take(j as int).push(x) =~= (plain0 + more_plain.take(
                    j as int,
                )).push(x));
            }
            j = j + 1;
        }
        let mut k: usize = 0;
        proof {
            assert(more.take(0) =~= Seq::<Entry>::empty());
        }
        while k < chunk.entries.len()
            invariant
                k <= chunk.entries@.len(),
                more == entry_views(chunk.entries@),
                indexed(index, entry_views(entries@)),
                entry_views(entries@) == absorb_entries(entries0, more.take(k as int)),
            decreases chunk.entries@.len() - k,
        {
            proof {
                assert(more.take(k as int + 1).drop_last() =~= more.take(k as int));
                assert(more.take(k as int + 1).last() == more[k as int]);
            }
            upsert_entry(
                &mut entries,
                &mut index,
                &chunk.entries[k].0,
                &chunk.entries[k].1,
                &chunk.entries[k].2,
            );
            k = k + 1;
        }
        proof {
            assert(more_plain.take(j as int) =~= more_plain);
            assert(more.take(k as int) =~= more);
            assert(all.take(i as int + 1).drop_last() =~= all.take(i as int));
            assert(all.take(i as int + 1).last() == all[i as int]);
        }
        i = i + 1;
    }
    proof {
        assert(all.take(i as int) =~= all);
    }
    ChunkMerge { plain, entries }
}

/// The rows that a merge leaves.
pub fn finish_merge(m: ChunkMerge) -> (r: Vec<JsonValue>)
    ensures
        json_views(r@) == finished(m@),
{
    let ghost plain0 = json_views(m.plain@);
    let ghost all = entry_views(m.entries@);
    let entries = m.entries;
    let mut out: Vec<JsonValue> = m.plain;
    let mut i: usize = 0;
    proof {
        assert(all.take(0) =~= Seq::<Entry>::empty());
        assert(plain0 + live_rows(all.take(0)) =~= plain0);
    }
    while i < entries.len()
        invariant
            i <= entries@.len(),
            all == entry_views(entries@),
            json_views(out@) == plain0 + live_rows(all.take(i as int)),
        decreases entries@.len() - i,
    {
        proof {
            assert(all.take(i as int + 1).drop_last() =~= all.take(i as int));
            assert(all.take(i as int + 1).last() == all[i as int]);
        }
        if !deleted(&entries[i].2) {
            let ghost before = json_views(out@);
            out.push(copy_json(&entries[i].2));
            proof {
                let x = entries@[i as int].2@;
                assert(json_views(out@) =~= before.push(x));
                assert(plain0 + live_rows(all.take(i as int)).push(x) =~= (plain0 + live_rows(
                    all.take(i as int),
                )).push(x));
            }
        }
        i = i + 1;
    }
    proof {
        assert(all.take(i as int) =~= all);
    }
    out
}

/// Merges the rows, each with the id given for it.
pub fn crdt_merge_rows(rows: &[(String, JsonValue)]) -> (r: Vec<JsonValue>)
    ensures
        json_views(r@) == merged_rows(field_views(rows@)),
{
    finish_merge(merge_chunk(rows))
}

} // verus!
