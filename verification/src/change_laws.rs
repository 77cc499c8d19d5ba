//! What updates, deletions, inserts and joins do to rows.

use vstd::prelude::*;
use vstd::string::*;
use crate::change::{cells_named, deleted_ids, first_with_id, insert_all, insert_cells, insert_columns_of,
    kept_targets, marked_fields, marked_row, marker_name, never_selected, replaced_rows, rows_after_merge,
    select_columns, selected, selected_cells, selected_fields, surviving_rows, updated_fields, updated_row,
    updated_rows, upserted};
use crate::infer::{names_of, names_with, values_of};
use crate::json::{json_views, key_at, lemma_key_at, lemma_key_at_is, lookup, member, put_then_lookup, Json, JsonValue,
    Number};
use crate::merge::{composite_key, fields_of, rowid_of, source_cols, target_cols};
use crate::merge_laws::lemma_push_contains;
use crate::plan::rowid_or_empty;
use crate::query::{aliased_fields, aliased_row, join_of, join_rows, joined_row, matches_joined, overlaid,
    unmatched_row, with_nulls};
use crate::row_laws::last_of;
use crate::sql::{alias_view, aliased, assigned, joined, JoinStep};
use crate::tally::{how_many, lemma_how_many_alike};
use crate::text::decimal;

verus! {

proof fn lemma_updated_fields(fields: Seq<(Seq<char>, Json)>, updates: Seq<(Seq<char>, Json)>, col: Seq<char>)
    ensures
        lookup(updated_fields(fields, updates), col) == (match last_of(updates, col) {
            Some(v) => Some(v),
            None => lookup(fields, col),
        }),
    decreases updates.len(),
{
    if updates.len() > 0 {
        lemma_updated_fields(fields, updates.drop_last(), col);
        put_then_lookup(
            updated_fields(fields, updates.drop_last()),
            updates.last().0,
            updates.last().1,
            col,
        );
    }
}

/// An updated row has the new version, in each column that is updated the value of the
/// last update of it, and in any other column what it had.
pub proof fn updates_set_their_columns(row: Json, updates: Seq<(Seq<char>, Json)>, version: Seq<char>, col: Seq<char>)
    requires
        row is Object,
    ensures
        member(updated_row(row, updates, version), "_version"@) == Some(Json::String(version)),
        col != "_version"@ ==> member(updated_row(row, updates, version), col) == (match last_of(updates, col) {
            Some(v) => Some(v),
            None => member(row, col),
        }),
{
    let fields = row->Object_0;
    lemma_updated_fields(fields, updates, col);
    put_then_lookup(updated_fields(fields, updates), "_version"@, Json::String(version), col);
}

/// An update touches just the rows that its condition holds of, each once, in order,
/// and each gets a version of its own.
pub proof fn updates_touch_the_rows_that_match(
    rows: Seq<Json>,
    holds: Seq<bool>,
    updates: Seq<(Seq<char>, Json)>,
    versions: Seq<Seq<char>>,
    n: nat,
    i: int,
)
    requires
        n <= rows.len(),
        n <= holds.len(),
        0 <= i < n,
    ensures
        updated_rows(rows, holds, updates, versions, n).len() == how_many(n, |k: int| holds[k]),
        holds[i] ==> how_many(i as nat, |k: int| holds[k]) < updated_rows(rows, holds, updates, versions, n).len()
            && updated_rows(rows, holds, updates, versions, n)[how_many(i as nat, |k: int| holds[k]) as int]
            == updated_row(rows[i], updates, versions[how_many(i as nat, |k: int| holds[k]) as int]),
    decreases n,
{
    let p = |k: int| holds[k];
    assert(how_many(0, p) == 0);
    assert(how_many(n, p) == how_many((n - 1) as nat, p) + if p(n - 1) {
        1nat
    } else {
        0nat
    });
    if n > 1 {
        updates_touch_the_rows_that_match(
            rows,
            holds,
            updates,
            versions,
            (n - 1) as nat,
            if i < n - 1 {
                i
            } else {
                0
            },
        );
    } else {
        assert(updated_rows(rows, holds, updates, versions, 0) =~= Seq::<Json>::empty());
    }
}

proof fn lemma_first_with_id(rows: Seq<Json>, id: Seq<char>, from: int)
    requires
        0 <= from <= rows.len(),
    ensures
        match first_with_id(rows, id, from) {
            Some(u) => exists|k: int|
                from <= k < rows.len() && #[trigger] rows[k] == u && rowid_of(u) == Some(id) && forall|m: int|
                    from <= m < k ==> rowid_of(#[trigger] rows[m]) != Some(id),
            None => forall|m: int| from <= m < rows.len() ==> rowid_of(#[trigger] rows[m]) != Some(id),
        },
    decreases rows.len() - from,
{
    if from < rows.len() {
        if rowid_of(rows[from]) == Some(id) {
            assert(rows[from] == rows[from]);
        } else {
            lemma_first_with_id(rows, id, from + 1);
        }
    }
}

/// Rewriting a collection after an update keeps every row in its place; a row for
/// which there is an updated one of its id is that one, any other is as it was.
pub proof fn rewriting_replaces_by_id(rows: Seq<Json>, updated: Seq<Json>, i: int)
    requires
        0 <= i < rows.len(),
    ensures
        replaced_rows(rows, updated).len() == rows.len(),
        match member(rows[i], "_rowid"@) {
            Some(Json::String(id)) => {
                ||| updated.contains(replaced_rows(rows, updated)[i]) && member(
                    replaced_rows(rows, updated)[i],
                    "_rowid"@,
                ) == Some(Json::String(id))
                ||| replaced_rows(rows, updated)[i] == rows[i] && forall|k: int|
                    0 <= k < updated.len() ==> member(#[trigger] updated[k], "_rowid"@) != Some(Json::String(id))
            },
            _ => replaced_rows(rows, updated)[i] == rows[i],
        },
{
    if let Some(Json::String(id)) = member(rows[i], "_rowid"@) {
        lemma_first_with_id(updated, id, 0);
        assert forall|k: int| 0 <= k < updated.len() implies (rowid_of(#[trigger] updated[k]) == Some(id)) == (member(
            updated[k],
            "_rowid"@,
        ) == Some(Json::String(id))) by {}
    }
}

/// A deletion takes the ids of just the rows that its condition holds of, and leaves
/// just the others, both in order.
pub proof fn deletions_take_the_rows_that_match(rows: Seq<(Seq<char>, Json)>, holds: Seq<bool>, n: nat, i: int)
    requires
        n <= rows.len(),
        n <= holds.len(),
        0 <= i < n,
    ensures
        deleted_ids(rows, holds, n).len() == how_many(n, |k: int| holds[k]),
        surviving_rows(rows, holds, n).len() == how_many(n, |k: int| !holds[k]),
        holds[i] ==> how_many(i as nat, |k: int| holds[k]) < deleted_ids(rows, holds, n).len() && deleted_ids(
            rows,
            holds,
            n,
        )[how_many(i as nat, |k: int| holds[k]) as int] == rows[i].0,
        !holds[i] ==> how_many(i as nat, |k: int| !holds[k]) < surviving_rows(rows, holds, n).len() && surviving_rows(
            rows,
            holds,
            n,
        )[how_many(i as nat, |k: int| !holds[k]) as int] == rows[i].1,
    decreases n,
{
    let p = |k: int| holds[k];
    let q = |k: int| !holds[k];
    assert(how_many(0, p) == 0 && how_many(0, q) == 0);
    assert(how_many(n, p) == how_many((n - 1) as nat, p) + if p(n - 1) {
        1nat
    } else {
        0nat
    });
    assert(how_many(n, q) == how_many((n - 1) as nat, q) + if q(n - 1) {
        1nat
    } else {
        0nat
    });
    if n > 1 {
        deletions_take_the_rows_that_match(
            rows,
            holds,
            (n - 1) as nat,
            if i < n - 1 {
                i
            } else {
                0
            },
        );
    } else {
        assert(deleted_ids(rows, holds, 0) =~= Seq::<Seq<char>>::empty());
        assert(surviving_rows(rows, holds, 0) =~= Seq::<Json>::empty());
    }
}

proof fn lemma_upserted(
    base: Seq<(Seq<char>, Json)>,
    upserts: Seq<Json>,
    target_col: Seq<char>,
    source_col: Seq<char>,
    id: Seq<char>,
)
    requires
        forall|i: int| 0 <= i < upserts.len() ==> rowid_of(#[trigger] upserts[i]) is Some,
    ensures
        match lookup(upserted(base, upserts, target_col, source_col), id) {
            Some(row) => {
                ||| exists|k: int|
                    0 <= k < upserts.len() && #[trigger] upserts[k] == row && rowid_of(row) == Some(id) && forall|
                        m: int,
                    |
                        k < m < upserts.len() ==> rowid_of(#[trigger] upserts[m]) != Some(id)
                ||| lookup(base, id) == Some(row) && forall|m: int|
                    0 <= m < upserts.len() ==> rowid_of(#[trigger] upserts[m]) != Some(id)
            },
            None => lookup(base, id) is None && forall|m: int|
                0 <= m < upserts.len() ==> rowid_of(#[trigger] upserts[m]) != Some(id),
        },
    decreases upserts.len(),
{
    if upserts.len() > 0 {
        let rest = upserts.drop_last();
        assert forall|i: int| 0 <= i < rest.len() implies rowid_of(#[trigger] rest[i]) is Some by {
            assert(rest[i] == upserts[i]);
        }
        lemma_upserted(base, rest, target_col, source_col, id);
        let last = upserts.last();
        assert(upserts[upserts.len() - 1] == last);
        let key = rowid_of(last)->0;
        let prev = upserted(base, rest, target_col, source_col);
        put_then_lookup(prev, key, last, id);
        if key == id {
            assert(upserts[upserts.len() - 1] == last && rowid_of(last) == Some(id));
        } else {
            match lookup(prev, id) {
                Some(row) => {
                    if exists|k: int|
                        0 <= k < rest.len() && #[trigger] rest[k] == row && rowid_of(row) == Some(id) && forall|m: int|
                            k < m < rest.len() ==> rowid_of(#[trigger] rest[m]) != Some(id) {
                        let k = choose|k: int|
                            0 <= k < rest.len() && #[trigger] rest[k] == row && rowid_of(row) == Some(id) && forall|
                                m: int,
                            |
                                k < m < rest.len() ==> rowid_of(#[trigger] rest[m]) != Some(id);
                        assert(upserts[k] == row);
                        assert forall|m: int| k < m < upserts.len() implies rowid_of(#[trigger] upserts[m]) != Some(
                            id,
                        ) by {
                            if m < rest.len() {
                                assert(rest[m] == upserts[m]);
                            }
                        }
                    } else {
                        assert forall|m: int| 0 <= m < upserts.len() implies rowid_of(#[trigger] upserts[m]) != Some(
                            id,
                        ) by {
                            if m < rest.len() {
                                assert(rest[m] == upserts[m]);
                            }
                        }
                    }
                },
                None => {
                    assert forall|m: int| 0 <= m < upserts.len() implies rowid_of(#[trigger] upserts[m]) != Some(
                        id,
                    ) by {
                        if m < rest.len() {
                            assert(rest[m] == upserts[m]);
                        }
                    }
                },
            }
        }
    }
}

proof fn lemma_kept_targets(existing: Seq<Json>, deletes: Seq<Seq<char>>, id: Seq<char>)
    ensures
        deletes.contains(id) ==> lookup(kept_targets(existing, deletes), id) is None,
        !deletes.contains(id) ==> match lookup(kept_targets(existing, deletes), id) {
            Some(row) => exists|k: int|
                0 <= k < existing.len() && #[trigger] existing[k] == row && rowid_or_empty(row) == id && forall|m: int|
                    k < m < existing.len() ==> rowid_or_empty(#[trigger] existing[m]) != id,
            None => forall|m: int| 0 <= m < existing.len() ==> rowid_or_empty(#[trigger] existing[m]) != id,
        },
    decreases existing.len(),
{
    if existing.len() == 0 {
        lemma_key_at(kept_targets(existing, deletes), id);
    } else {
        let rest = existing.drop_last();
        lemma_kept_targets(rest, deletes, id);
        let last = existing.last();
        assert(existing[existing.len() - 1] == last);
        let own = rowid_or_empty(last);
        let prev = kept_targets(rest, deletes);
        put_then_lookup(prev, own, last, id);
        if !deletes.contains(id) {
            if own == id {
                assert(existing[existing.len() - 1] == last && rowid_or_empty(last) == id);
            } else {
                match lookup(prev, id) {
                    Some(row) => {
                        let k = choose|k: int|
                            0 <= k < rest.len() && #[trigger] rest[k] == row && rowid_or_empty(row) == id && forall|
                                m: int,
                            |
                                k < m < rest.len() ==> rowid_or_empty(#[trigger] rest[m]) != id;
                        assert(existing[k] == row);
                        assert forall|m: int| k < m < existing.len() implies rowid_or_empty(#[trigger] existing[m])
                            != id by {
                            if m < rest.len() {
                                assert(rest[m] == existing[m]);
                            }
                        }
                    },
                    None => {
                        assert forall|m: int| 0 <= m < existing.len() implies rowid_or_empty(#[trigger] existing[m])
                            != id by {
                            if m < rest.len() {
                                assert(rest[m] == existing[m]);
                            }
                        }
                    },
                }
            }
        }
    }
}

/// After a merge a collection has, for each id, the row that was last written under it;
/// where none was, the target row of that id, unless it was deleted. It has no other
/// rows. It is asked that the written rows have ids.
pub proof fn merged_collection_has_what_was_written(
    existing: Seq<Json>,
    upserts: Seq<Json>,
    deletes: Seq<Seq<char>>,
    target_col: Seq<char>,
    source_col: Seq<char>,
    id: Seq<char>,
    k: int,
)
    requires
        forall|i: int| 0 <= i < upserts.len() ==> rowid_of(#[trigger] upserts[i]) is Some,
    ensures
        0 <= k < upserts.len() && rowid_of(upserts[k]) == Some(id) && (forall|m: int|
            k < m < upserts.len() ==> rowid_of(#[trigger] upserts[m]) != Some(id)) ==> rows_after_merge(
            existing,
            upserts,
            deletes,
            target_col,
            source_col,
        ).contains(upserts[k]),
        0 <= k < existing.len() && rowid_or_empty(existing[k]) == id && !deletes.contains(id) && (forall|m: int|
            k < m < existing.len() ==> rowid_or_empty(#[trigger] existing[m]) != id) && (forall|m: int|
            0 <= m < upserts.len() ==> rowid_of(#[trigger] upserts[m]) != Some(id)) ==> rows_after_merge(
            existing,
            upserts,
            deletes,
            target_col,
            source_col,
        ).contains(existing[k]),
{
    let base = kept_targets(existing, deletes);
    let all = upserted(base, upserts, target_col, source_col);
    let rows = rows_after_merge(existing, upserts, deletes, target_col, source_col);
    lemma_upserted(base, upserts, target_col, source_col, id);
    lemma_kept_targets(existing, deletes, id);
    lemma_key_at(all, id);
    if let Some(at) = key_at(all, id) {
        assert(rows[at] == all[at].1);
        assert(rows.contains(rows[at]));
    }
}

proof fn lemma_marked_fields(fields: Seq<(Seq<char>, Json)>, accepted: Seq<bool>, k: int, col: Seq<char>)
    requires
        forall|i: int| 0 <= i < accepted.len() ==> col != #[trigger] marker_name(i as nat),
        0 <= k < accepted.len() || accepted.len() == 0,
    ensures
        lookup(marked_fields(fields, accepted), col) == lookup(fields, col),
        accepted.len() > 0 ==> lookup(marked_fields(fields, accepted), marker_name(k as nat)) == Some(
            Json::Number(
                Number::Int(
                    if accepted[k] {
                        1
                    } else {
                        0
                    },
                ),
            ),
        ),
    decreases accepted.len(),
{
    if accepted.len() > 0 {
        let rest = accepted.drop_last();
        let n = (accepted.len() - 1) as nat;
        let name = marker_name(n);
        let v = Json::Number(
            Number::Int(
                if accepted.last() {
                    1
                } else {
                    0
                },
            ),
        );
        if k < n {
            lemma_marked_fields(fields, rest, k, col);
            assert(marker_name(k as nat) != name) by {
                crate::cache::lemma_decimal(k as nat, n);
                if marker_name(k as nat) == name {
                    assert(marker_name(k as nat).skip("_udf_marker_"@.len() as int) =~= decimal(k as nat));
                    assert(name.skip("_udf_marker_"@.len() as int) =~= decimal(n));
                }
            }
            put_then_lookup(marked_fields(fields, rest), name, v, marker_name(k as nat));
        } else if rest.len() > 0 {
            lemma_marked_fields(fields, rest, 0, col);
        }
        assert(col != marker_name(n));
        put_then_lookup(marked_fields(fields, rest), name, v, col);
    }
}

/// The condition of a SELECT sees, for each call of a function, the mark 1 where the
/// function accepted the row and 0 where it did not, and all columns as they are.
pub proof fn marks_say_what_was_accepted(row: Json, accepted: Seq<bool>, k: int, col: Seq<char>)
    requires
        row is Object,
        0 <= k < accepted.len(),
        forall|i: int| 0 <= i < accepted.len() ==> col != #[trigger] marker_name(i as nat),
    ensures
        member(marked_row(row, accepted), "_udf_marker_"@ + decimal(k as nat)) == Some(
            Json::Number(
                Number::Int(
                    if accepted[k] {
                        1
                    } else {
                        0
                    },
                ),
            ),
        ),
        member(marked_row(row, accepted), col) == member(row, col),
{
    lemma_marked_fields(row->Object_0, accepted, k, col);
}

proof fn lemma_overlaid(base: Seq<(Seq<char>, Json)>, over: Seq<(Seq<char>, Json)>, col: Seq<char>)
    ensures
        lookup(overlaid(base, over), col) == (match last_of(over, col) {
            Some(v) => Some(v),
            None => lookup(base, col),
        }),
    decreases over.len(),
{
    if over.len() > 0 {
        lemma_overlaid(base, over.drop_last(), col);
        put_then_lookup(overlaid(base, over.drop_last()), over.last().0, over.last().1, col);
    }
}

proof fn lemma_with_nulls(base: Seq<(Seq<char>, Json)>, keys: Seq<(Seq<char>, Json)>, col: Seq<char>)
    ensures
        lookup(with_nulls(base, keys), col) == (match lookup(base, col) {
            Some(v) => Some(v),
            None => if exists|i: int| 0 <= i < keys.len() && (#[trigger] keys[i]).0 == col {
                Some(Json::Null)
            } else {
                None
            },
        }),
    decreases keys.len(),
{
    if keys.len() > 0 {
        let rest = keys.drop_last();
        lemma_with_nulls(base, rest, col);
        let prev = with_nulls(base, rest);
        let k = keys.last().0;
        put_then_lookup(prev, k, Json::Null, col);
        assert(keys[keys.len() - 1].0 == k);
        if exists|i: int| 0 <= i < rest.len() && (#[trigger] rest[i]).0 == col {
            let i = choose|i: int| 0 <= i < rest.len() && (#[trigger] rest[i]).0 == col;
            assert(keys[i].0 == col);
        }
        if exists|i: int| 0 <= i < keys.len() && (#[trigger] keys[i]).0 == col {
            let i = choose|i: int| 0 <= i < keys.len() && (#[trigger] keys[i]).0 == col;
            if i < rest.len() {
                assert(rest[i].0 == col);
            }
        }
    }
}

/// A joined row has the columns of both rows, of one name those of the right row. A
/// left row without a match has nulls in the columns of the right side that it does
/// not have itself.
pub proof fn joined_rows_have_both_sides(l: Seq<(Seq<char>, Json)>, r: Seq<(Seq<char>, Json)>, others: Seq<Json>, col: Seq<char>)
    ensures
        member(joined_row(Json::Object(l), Json::Object(r)), col) == (match last_of(r, col) {
            Some(v) => Some(v),
            None => lookup(l, col),
        }),
        others.len() > 0 && others[0] == Json::Object(r) ==> member(unmatched_row(Json::Object(l), others), col) == (
        match lookup(l, col) {
            Some(v) => Some(v),
            None => if exists|i: int| 0 <= i < r.len() && (#[trigger] r[i]).0 == col {
                Some(Json::Null)
            } else {
                None
            },
        }),
        others.len() == 0 ==> unmatched_row(Json::Object(l), others) == Json::Object(l),
{
    lemma_overlaid(l, r, col);
    lemma_with_nulls(l, r, col);
}

proof fn lemma_matches(left: Json, key: Seq<char>, right: Seq<Json>, cols: Seq<Seq<char>>, n: nat, row: Json)
    requires
        n <= right.len(),
    ensures
        matches_joined(left, key, right, cols, n).contains(row) <==> exists|j: int|
            0 <= j < n && composite_key(#[trigger] right[j], cols) == key && row == joined_row(left, right[j]),
        matches_joined(left, key, right, cols, n).len() == how_many(
            n,
            |j: int| composite_key(right[j], cols) == key,
        ),
    decreases n,
{
    if n > 0 {
        lemma_matches(left, key, right, cols, (n - 1) as nat, row);
        let prev = matches_joined(left, key, right, cols, (n - 1) as nat);
        lemma_push_contains(prev, joined_row(left, right[n - 1]), row);
        if exists|j: int|
            0 <= j < n && composite_key(#[trigger] right[j], cols) == key && row == joined_row(left, right[j]) {
            let j = choose|j: int|
                0 <= j < n && composite_key(#[trigger] right[j], cols) == key && row == joined_row(left, right[j]);
            if j < n - 1 {
                assert(composite_key(right[j], cols) == key && row == joined_row(left, right[j]));
            }
        }
    }
}

/// The left row at `i` and the right row at `j` have one key.
pub open spec fn keys_meet(left: Seq<Json>, right: Seq<Json>, on: Seq<(String, String)>, i: int, j: int) -> bool {
    composite_key(left[i], Seq::new(on.len(), |k: int| on[k].0@)) == composite_key(
        right[j],
        Seq::new(on.len(), |k: int| on[k].1@),
    )
}

/// A row is in a join just where it is made of a left and a right row with one key, or
/// the join keeps left rows and it is made of a left row that no right row meets.
pub proof fn joins_have_the_pairs_that_meet(
    left: Seq<Json>,
    right: Seq<Json>,
    on: Seq<(String, String)>,
    left_join: bool,
    n: nat,
    row: Json,
)
    requires
        n <= left.len(),
    ensures
        join_rows(left, right, on, left_join, n).contains(row) <==> (exists|i: int, j: int|
            0 <= i < n && 0 <= j < right.len() && #[trigger] keys_meet(left, right, on, i, j) && row == joined_row(
                left[i],
                right[j],
            )) || (left_join && exists|i: int|
            0 <= i < n && row == unmatched_row(#[trigger] left[i], right) && forall|j: int|
                0 <= j < right.len() ==> !#[trigger] keys_meet(left, right, on, i, j)),
    decreases n,
{
    if n > 0 {
        joins_have_the_pairs_that_meet(left, right, on, left_join, (n - 1) as nat, row);
        let i = n - 1;
        let t = Seq::new(on.len(), |k: int| on[k].0@);
        let s = Seq::new(on.len(), |k: int| on[k].1@);
        assert(target_cols(on) =~= t);
        assert(source_cols(on) =~= s);
        let key = composite_key(left[i], t);
        lemma_matches(left[i], key, right, s, right.len(), row);
        let found = matches_joined(left[i], key, right, s, right.len());
        let prev = join_rows(left, right, on, left_join, i as nat);
        let more = join_of(left[i], right, on, left_join);
        lemma_add_contains(prev, more, row);
        crate::tally::lemma_how_many_bound(right.len(), |j: int| composite_key(right[j], s) == key);
        if found.len() > 0 {
            let x = found[0];
            assert(found.contains(x));
            lemma_matches(left[i], key, right, s, right.len(), x);
            let j = choose|j: int|
                0 <= j < right.len() && composite_key(#[trigger] right[j], s) == key && x == joined_row(
                    left[i],
                    right[j],
                );
            assert(keys_meet(left, right, on, i, j));
        } else {
            assert forall|j: int| 0 <= j < right.len() implies !#[trigger] keys_meet(left, right, on, i, j) by {
                if keys_meet(left, right, on, i, j) {
                    let x = joined_row(left[i], right[j]);
                    lemma_matches(left[i], key, right, s, right.len(), x);
                    assert(composite_key(right[j], s) == key);
                    assert(found.contains(x));
                }
            }
        }
        if more.contains(row) {
            if found.len() > 0 {
                let j = choose|j: int|
                    0 <= j < right.len() && composite_key(#[trigger] right[j], s) == key && row == joined_row(
                        left[i],
                        right[j],
                    );
                assert(keys_meet(left, right, on, i, j));
            } else {
                assert(row == unmatched_row(left[i], right));
            }
        }
        assert forall|i2: int, j2: int|
            0 <= i2 < n && 0 <= j2 < right.len() && #[trigger] keys_meet(left, right, on, i2, j2) && row == joined_row(
                left[i2],
                right[j2],
            ) implies join_rows(left, right, on, left_join, n).contains(row) by {
            if i2 == i {
                assert(composite_key(right[j2], s) == key);
                assert(found.contains(row));
            }
        }
        if left_join && exists|i2: int|
            0 <= i2 < n && row == unmatched_row(#[trigger] left[i2], right) && forall|j: int|
                0 <= j < right.len() ==> !#[trigger] keys_meet(left, right, on, i2, j) {
            let i2 = choose|i2: int|
                0 <= i2 < n && row == unmatched_row(#[trigger] left[i2], right) && forall|j: int|
                    0 <= j < right.len() ==> !#[trigger] keys_meet(left, right, on, i2, j);
            if i2 == i {
                assert(found.len() == 0);
                assert(more[0] == row);
                assert(more.contains(row));
            } else {
                assert(row == unmatched_row(left[i2], right));
            }
        }
    }
}

pub proof fn lemma_add_contains<A>(a: Seq<A>, b: Seq<A>, x: A)
    ensures
        (a + b).contains(x) <==> a.contains(x) || b.contains(x),
{
    let s = a + b;
    if a.contains(x) {
        let i = choose|i: int| 0 <= i < a.len() && a[i] == x;
        assert(s[i] == x);
    }
    if b.contains(x) {
        let i = choose|i: int| 0 <= i < b.len() && b[i] == x;
        assert(s[a.len() + i] == x);
    }
    if s.contains(x) {
        let i = choose|i: int| 0 <= i < s.len() && s[i] == x;
        if i < a.len() {
            assert(a[i] == x);
        } else {
            assert(b[i - a.len()] == x);
        }
    }
}

/// Under an alias a row has its columns with the alias and a dot before their names.
pub proof fn aliases_stand_before_the_names(row: Json, alias: Seq<char>, col: Seq<char>)
    requires
        row is Object,
    ensures
        member(aliased_row(row, alias), alias + seq!['.'] + col) == member(row, col),
{
    let fields = row->Object_0;
    let all = aliased_fields(fields, alias);
    let name = alias + seq!['.'] + col;
    assert(name =~= alias.push('.') + col);
    lemma_key_at(fields, col);
    lemma_key_at(all, name);
    match key_at(fields, col) {
        Some(i) => {
            assert(all[i].0 == name);
            assert forall|j: int| 0 <= j < i implies (#[trigger] all[j]).0 != name by {
                if all[j].0 == name {
                    assert((alias.push('.') + fields[j].0).skip(alias.len() + 1int) =~= fields[j].0);
                    assert(name.skip(alias.len() + 1int) =~= col);
                }
            }
            lemma_key_at_is(all, name, i);
        },
        None => {
            if let Some(j) = key_at(all, name) {
                assert((alias.push('.') + fields[j].0).skip(alias.len() + 1int) =~= fields[j].0);
                assert(name.skip(alias.len() + 1int) =~= col);
            }
        },
    }
}

proof fn lemma_assigned(sets: Seq<(Seq<char>, Json)>, col: Seq<char>)
    ensures
        lookup(assigned(sets), col) == last_of(sets, col),
    decreases sets.len(),
{
    if sets.len() > 0 {
        lemma_assigned(sets.drop_last(), col);
        put_then_lookup(assigned(sets.drop_last()), sets.last().0, sets.last().1, col);
    } else {
        lemma_key_at(assigned(sets), col);
    }
}

/// Of several assignments to a column the last counts; a column without one is not
/// assigned.
pub proof fn the_last_assignment_counts(sets: Seq<(Seq<char>, Json)>, col: Seq<char>)
    ensures
        lookup(assigned(sets), col) == last_of(sets, col),
{
    lemma_assigned(sets, col);
}

proof fn lemma_cells_named_push(cells: Seq<(Seq<char>, Json)>, more: Seq<(Seq<char>, Json)>, name: Seq<char>)
    ensures
        cells_named(cells + more, name) == cells_named(cells, name) + cells_named(more, name),
    decreases more.len(),
{
    if more.len() == 0 {
        assert(cells + more =~= cells);
        assert(cells_named(more, name) =~= Seq::<Json>::empty());
        assert(cells_named(cells, name) + cells_named(more, name) =~= cells_named(cells, name));
    } else {
        let rest = more.drop_last();
        lemma_cells_named_push(cells, rest, name);
        assert((cells + more).drop_last() =~= cells + rest);
        assert((cells + more).last() == more.last());
        if more.last().0 == name {
            assert(cells_named(cells, name) + cells_named(rest, name).push(more.last().1) =~= (cells_named(cells, name)
                + cells_named(rest, name)).push(more.last().1));
        }
    }
}

proof fn lemma_insert_row(columns: Seq<Seq<char>>, values: Seq<Json>, n: nat, c: int)
    requires
        0 <= c < columns.len(),
        n <= columns.len(),
        forall|k: int| 0 <= k < columns.len() && k != c ==> #[trigger] columns[k] != columns[c],
    ensures
        cells_named(insert_cells(columns, values, n), columns[c]) == (if c < n && c < values.len() {
            seq![values[c]]
        } else {
            Seq::empty()
        }),
    decreases n,
{
    if n == 0 {
        assert(cells_named(insert_cells(columns, values, n), columns[c]) =~= Seq::<Json>::empty());
    } else {
        lemma_insert_row(columns, values, (n - 1) as nat, c);
        let prev = insert_cells(columns, values, (n - 1) as nat);
        if n <= values.len() {
            let all = prev.push((columns[n - 1], values[n - 1]));
            assert(all.drop_last() =~= prev);
            if n - 1 == c {
                assert(Seq::<Json>::empty().push(values[c]) =~= seq![values[c]]);
            } else {
                assert(columns[n - 1] != columns[c]);
            }
        }
    }
}

proof fn lemma_insert_all(columns: Seq<Seq<char>>, rows: Seq<Vec<JsonValue>>, c: int)
    requires
        0 <= c < columns.len(),
        forall|k: int| 0 <= k < columns.len() && k != c ==> #[trigger] columns[k] != columns[c],
        forall|r: int| 0 <= r < rows.len() ==> (#[trigger] rows[r])@.len() == columns.len(),
    ensures
        cells_named(insert_all(columns, rows), columns[c]) == Seq::new(rows.len(), |r: int| rows[r]@[c]@),
    decreases rows.len(),
{
    let want = Seq::new(rows.len(), |r: int| rows[r]@[c]@);
    if rows.len() == 0 {
        assert(cells_named(insert_all(columns, rows), columns[c]) =~= want);
    } else {
        let rest = rows.drop_last();
        assert forall|r: int| 0 <= r < rest.len() implies (#[trigger] rest[r])@.len() == columns.len() by {
            assert(rest[r] == rows[r]);
        }
        lemma_insert_all(columns, rest, c);
        let values = json_views(rows.last()@);
        assert(rows[rows.len() - 1] == rows.last());
        lemma_insert_row(columns, values, columns.len(), c);
        lemma_cells_named_push(insert_all(columns, rest), insert_cells(columns, values, columns.len()), columns[c]);
        assert(cells_named(insert_all(columns, rows), columns[c]) =~= want);
    }
}

/// An INSERT puts the values of its rows, in order, under the columns in whose place
/// they stand.
pub proof fn inserts_put_values_under_their_columns(columns: Seq<Seq<char>>, rows: Seq<Vec<JsonValue>>, c: int)
    requires
        0 <= c < columns.len(),
        forall|k: int| 0 <= k < columns.len() && k != c ==> #[trigger] columns[k] != columns[c],
        forall|r: int| 0 <= r < rows.len() ==> (#[trigger] rows[r])@.len() == columns.len(),
    ensures
        insert_columns_of(columns, rows).len() == columns.len(),
        insert_columns_of(columns, rows)[c] == (columns[c], Seq::new(rows.len(), |r: int| rows[r]@[c]@)),
{
    lemma_insert_all(columns, rows, c);
    if columns.take(c).contains(columns[c]) {
        let k = choose|k: int| 0 <= k < c && columns.take(c)[k] == columns[c];
        assert(columns[k] == columns[c]);
    }
}

proof fn lemma_selected_fields(fields: Seq<(Seq<char>, Json)>, columns: Seq<Seq<char>>, x: (Seq<char>, Json))
    ensures
        selected_fields(fields, columns).contains(x) <==> fields.contains(x) && selected(columns, x.0)
            && !never_selected(x.0),
    decreases fields.len(),
{
    if fields.len() > 0 {
        let rest = fields.drop_last();
        lemma_selected_fields(rest, columns, x);
        assert(fields =~= rest.push(fields.last()));
        lemma_push_contains(rest, fields.last(), x);
        lemma_push_contains(selected_fields(rest, columns), fields.last(), x);
    }
}

proof fn lemma_selected_cells(rows: Seq<Json>, columns: Seq<Seq<char>>, x: (Seq<char>, Json))
    ensures
        selected_cells(rows, columns).contains(x) <==> selected(columns, x.0) && !never_selected(x.0) && exists|i: int|
            0 <= i < rows.len() && fields_of(#[trigger] rows[i]).contains(x),
    decreases rows.len(),
{
    if rows.len() > 0 {
        let rest = rows.drop_last();
        lemma_selected_cells(rest, columns, x);
        lemma_selected_fields(fields_of(rows.last()), columns, x);
        lemma_add_contains(selected_cells(rest, columns), selected_fields(fields_of(rows.last()), columns), x);
        assert(rows[rows.len() - 1] == rows.last());
        if exists|i: int| 0 <= i < rest.len() && fields_of(#[trigger] rest[i]).contains(x) {
            let i = choose|i: int| 0 <= i < rest.len() && fields_of(#[trigger] rest[i]).contains(x);
            assert(fields_of(rows[i]).contains(x));
        }
        if exists|i: int| 0 <= i < rows.len() && fields_of(#[trigger] rows[i]).contains(x) {
            let i = choose|i: int| 0 <= i < rows.len() && fields_of(#[trigger] rows[i]).contains(x);
            if i < rest.len() {
                assert(fields_of(rest[i]).contains(x));
            }
        }
    }
}

proof fn lemma_cells_named_has(cells: Seq<(Seq<char>, Json)>, name: Seq<char>, v: Json)
    ensures
        cells_named(cells, name).contains(v) <==> cells.contains((name, v)),
        cells_named(cells, name).len() == how_many(cells.len(), |k: int| cells[k].0 == name),
    decreases cells.len(),
{
    if cells.len() > 0 {
        let rest = cells.drop_last();
        lemma_cells_named_has(rest, name, v);
        assert(cells =~= rest.push(cells.last()));
        lemma_push_contains(rest, cells.last(), (name, v));
        lemma_push_contains(cells_named(rest, name), cells.last().1, v);
        lemma_how_many_alike(rest.len(), |k: int| rest[k].0 == name, |k: int| cells[k].0 == name);
    }
}

pub proof fn lemma_names_with(names: Seq<Seq<char>>, fields: Seq<(Seq<char>, Json)>, x: Seq<char>)
    ensures
        names_with(names, fields).contains(x) <==> names.contains(x) || exists|i: int|
            0 <= i < fields.len() && (#[trigger] fields[i]).0 == x,
        names.no_duplicates() ==> names_with(names, fields).no_duplicates(),
    decreases fields.len(),
{
    if fields.len() > 0 {
        let rest = fields.drop_last();
        lemma_names_with(names, rest, x);
        let prev = names_with(names, rest);
        let last = fields.last().0;
        lemma_push_contains(prev, last, x);
        assert(fields[fields.len() - 1].0 == last);
        if exists|i: int| 0 <= i < rest.len() && (#[trigger] rest[i]).0 == x {
            let i = choose|i: int| 0 <= i < rest.len() && (#[trigger] rest[i]).0 == x;
            assert(fields[i].0 == x);
        }
        if exists|i: int| 0 <= i < fields.len() && (#[trigger] fields[i]).0 == x {
            let i = choose|i: int| 0 <= i < fields.len() && (#[trigger] fields[i]).0 == x;
            if i < rest.len() {
                assert(rest[i].0 == x);
            }
        }
    }
}

/// A SELECT has a column for a name just where a row that it was given has a field of
/// that name which is asked for and is not the store's own; and the column has just
/// the values of these fields.
pub proof fn selects_have_the_fields_asked_for(rows: Seq<Json>, columns: Seq<Seq<char>>, name: Seq<char>, v: Json)
    ensures
        ({
            let result = select_columns(rows, columns);
            let asked = selected(columns, name) && !never_selected(name);
            &&& (exists|c: int| 0 <= c < result.len() && (#[trigger] result[c]).0 == name && result[c].1.contains(v))
                <==> asked && exists|i: int| 0 <= i < rows.len() && fields_of(#[trigger] rows[i]).contains((name, v))
            &&& forall|c: int, d: int|
                0 <= c < d < result.len() ==> (#[trigger] result[c]).0 != (#[trigger] result[d]).0
        }),
{
    let cells = selected_cells(rows, columns);
    let names = names_with(Seq::empty(), cells);
    let result = select_columns(rows, columns);
    lemma_selected_cells(rows, columns, (name, v));
    lemma_names_with(Seq::empty(), cells, name);
    lemma_cells_named_has(cells, name, v);
    if cells.contains((name, v)) {
        let k = choose|k: int| 0 <= k < cells.len() && cells[k] == (name, v);
        assert(cells[k].0 == name);
        assert(names.contains(name));
        let c = choose|c: int| 0 <= c < names.len() && names[c] == name;
        assert(result[c].0 == name && result[c].1.contains(v));
    }
    assert forall|c: int, d: int| 0 <= c < d < result.len() implies (#[trigger] result[c]).0 != (
    #[trigger] result[d]).0 by {
        assert(names[c] != names[d]);
    }
}

/// The columns that rows are written as: each name that a row has, once; and under it
/// the value of each row, null where the row does not have it.
pub proof fn written_columns_are_those_of_the_rows(rows: Seq<Json>, name: Seq<char>, i: int)
    requires
        0 <= i < rows.len(),
    ensures
        names_of(rows).contains(name) <==> exists|k: int| 0 <= k < rows.len() && member(#[trigger] rows[k], name) is Some,
        names_of(rows).no_duplicates(),
        values_of(rows, name).len() == rows.len(),
        values_of(rows, name)[i] == (match member(rows[i], name) {
            Some(v) => v,
            None => Json::Null,
        }),
{
    lemma_names_of(rows, name);
}

proof fn lemma_names_of(rows: Seq<Json>, name: Seq<char>)
    ensures
        names_of(rows).contains(name) <==> exists|k: int| 0 <= k < rows.len() && member(#[trigger] rows[k], name) is Some,
        names_of(rows).no_duplicates(),
    decreases rows.len(),
{
    if rows.len() > 0 {
        let rest = rows.drop_last();
        lemma_names_of(rest, name);
        let last = rows.last();
        assert(rows[rows.len() - 1] == last);
        lemma_names_with(names_of(rest), fields_of(last), name);
        lemma_key_at(fields_of(last), name);
        if exists|k: int| 0 <= k < rest.len() && member(#[trigger] rest[k], name) is Some {
            let k = choose|k: int| 0 <= k < rest.len() && member(#[trigger] rest[k], name) is Some;
            assert(member(rows[k], name) is Some);
        }
        if exists|k: int| 0 <= k < rows.len() && member(#[trigger] rows[k], name) is Some {
            let k = choose|k: int| 0 <= k < rows.len() && member(#[trigger] rows[k], name) is Some;
            if k < rest.len() {
                assert(member(rest[k], name) is Some);
            }
        }
    }
}

/// The rows of a SELECT are those of its table under its alias, joined with each further
/// table in turn.
pub proof fn joins_are_made_in_turn(base: Seq<Json>, joins: Seq<JoinStep>, step: JoinStep, a: Seq<char>, i: int)
    ensures
        joined(base, Seq::empty()) == base,
        joined(base, joins.push(step)) == join_rows(
            joined(base, joins),
            aliased(json_views(step.rows@), alias_view(step.alias)),
            step.on@,
            step.left,
            joined(base, joins).len(),
        ),
        aliased(base, None) == base,
        aliased(base, Some(a)).len() == base.len(),
        0 <= i < base.len() ==> aliased(base, Some(a))[i] == aliased_row(base[i], a),
{
    assert(joins.push(step).drop_last() =~= joins);
}

} // verus!
