//! Statements on rows: updates, deletions, inserts, and the columns of a
//! SELECT.

use vstd::prelude::*;
use vstd::string::*;
use crate::intern::Interner;
use crate::json::{
    copy_json, field_views, json_shown, json_text, json_views, lemma_object_view, member, put,
    put_field, Json, JsonNumber, JsonValue, Number,
};
use crate::merge::{fields_of, rowid_of};
use crate::plan::rowid_or_empty;
use crate::query::{hidden, holds_text, is_hidden};
use crate::text::{
    chars_of, copy_text, decimal, ends_with, has_prefix, has_suffix, is_text, push_chars, same_text,
    starts_with, text_of, text_views, write_decimal,
};

verus! {

/// The fields with the updates set.
pub open spec fn updated_fields(
    fields: Seq<(Seq<char>, Json)>,
    updates: Seq<(Seq<char>, Json)>,
) -> Seq<(Seq<char>, Json)>
    decreases updates.len(),
{
    if updates.len() == 0 {
        fields
    } else {
        put(updated_fields(fields, updates.drop_last()), updates.last().0, updates.last().1)
    }
}

/// The row with the updates and a new version. What is no object stays as it is.
pub open spec fn updated_row(row: Json, updates: Seq<(Seq<char>, Json)>, version: Seq<char>) -> Json {
    match row {
        Json::Object(fields) => Json::Object(
            put(updated_fields(fields, updates), "_version"@, Json::String(version)),
        ),
        _ => row,
    }
}

/// The rows among the first `n` that match, updated. The k-th of them gets the
/// k-th version.
pub open spec fn updated_rows(
    rows: Seq<Json>,
    holds: Seq<bool>,
    updates: Seq<(Seq<char>, Json)>,
    versions: Seq<Seq<char>>,
    n: nat,
) -> Seq<Json>
    decreases n,
{
    if n == 0 {
        Seq::empty()
    } else {
        let prev = updated_rows(rows, holds, updates, versions, (n - 1) as nat);
        if holds[n - 1] {
            prev.push(updated_row(rows[n - 1], updates, versions[prev.len() as int]))
        } else {
            prev
        }
    }
}

fn update_row(row: &JsonValue, updates: &Vec<(String, JsonValue)>, version: &str) -> (r: JsonValue)
    ensures
        r@ == updated_row(row@, field_views(updates@), version@),
{
    let copy = copy_json(row);
    match copy {
        JsonValue::Object(fields0) => {
            proof {
                lemma_object_view(fields0);
            }
            let mut fields = fields0;
            let ghost base = field_views(fields@);
            let ghost all = field_views(updates@);
            let mut i: usize = 0;
            proof {
                assert(all.take(0) =~= Seq::<(Seq<char>, Json)>::empty());
            }
            while i < updates.len()
                invariant
                    i <= updates@.len(),
                    all == field_views(updates@),
                    field_views(fields@) == updated_fields(base, all.take(i as int)),
                decreases updates@.len() - i,
            {
                proof {
                    assert(all.take(i as int + 1).drop_last() =~= all.take(i as int));
                    assert(all.take(i as int + 1).last() == all[i as int]);
                }
                put_field(&mut fields, &updates[i].0, copy_json(&updates[i].1));
                i = i + 1;
            }
            proof {
                assert(all.take(i as int) =~= all);
            }
            put_field(&mut fields, "_version", JsonValue::String(copy_text(version)));
            proof {
                lemma_object_view(fields);
            }
            JsonValue::Object(fields)
        },
        other => other,
    }
}

/// Updates the rows that match. `holds` tells which do; `versions` are the new
/// versions, one for each row at most.
pub fn update_rows(
    rows: &[JsonValue],
    holds: &[bool],
    updates: &Vec<(String, JsonValue)>,
    versions: &[String],
) -> (r: Vec<JsonValue>)
    requires
        holds@.len() == rows@.len(),
        versions@.len() >= rows@.len(),
    ensures
        json_views(r@) == updated_rows(
            json_views(rows@),
            holds@,
            field_views(updates@),
            text_views(versions@),
            rows@.len(),
        ),
{
    let ghost all = json_views(rows@);
    let ghost uv = field_views(updates@);
    let ghost vv = text_views(versions@);
    let mut out: Vec<JsonValue> = Vec::new();
    let mut i: usize = 0;
    proof {
        assert(json_views(out@) =~= Seq::<Json>::empty());
    }
    while i < rows.len()
        invariant
            i <= rows@.len(),
            all == json_views(rows@),
            uv == field_views(updates@),
            vv == text_views(versions@),
            holds@.len() == rows@.len(),
            versions@.len() >= rows@.len(),
            out@.len() <= i,
            json_views(out@) == updated_rows(all, holds@, uv, vv, i as nat),
        decreases rows@.len() - i,
    {
        if holds[i] {
            let ghost before = json_views(out@);
            let row = update_row(&rows[i], updates, &versions[out.len()]);
            let ghost rv = row@;
            out.push(row);
            proof {
                assert(json_views(out@) =~= before.push(rv));
                assert(all[i as int] == rows@[i as int]@);
            }
        }
        i = i + 1;
    }
    out
}

/// The first of the rows that has an id.
pub open spec fn first_with_id(rows: Seq<Json>, id: Seq<char>, from: int) -> Option<Json>
    decreases rows.len() - from,
{
    if from < 0 || from >= rows.len() {
        None
    } else if rowid_of(rows[from]) == Some(id) {
        Some(rows[from])
    } else {
        first_with_id(rows, id, from + 1)
    }
}

/// The row as it stands after an update: an updated row of the same id takes
/// its place.
pub open spec fn replaced_row(row: Json, updated: Seq<Json>) -> Json {
    match rowid_of(row) {
        Some(id) => match first_with_id(updated, id, 0) {
            Some(u) => u,
            None => row,
        },
        None => row,
    }
}

pub open spec fn replaced_rows(rows: Seq<Json>, updated: Seq<Json>) -> Seq<Json> {
    Seq::new(rows.len(), |i: int| replaced_row(rows[i], updated))
}

/// Puts updated rows in the places of the rows with their ids.
pub fn replace_rows(rows: &[JsonValue], updated: &Vec<JsonValue>) -> (r: Vec<JsonValue>)
    ensures
        json_views(r@) == replaced_rows(json_views(rows@), json_views(updated@)),
{
    let ghost want = replaced_rows(json_views(rows@), json_views(updated@));
    let ghost uv = json_views(updated@);
    let mut out: Vec<JsonValue> = Vec::new();
    let mut i: usize = 0;
    proof {
        assert(json_views(out@) =~= want.take(0));
    }
    while i < rows.len()
        invariant
            i <= rows@.len(),
            uv == json_views(updated@),
            want == replaced_rows(json_views(rows@), uv),
            json_views(out@) == want.take(i as int),
        decreases rows@.len() - i,
    {
        let ghost before = json_views(out@);
        let row = match rows[i].get("_rowid") {
            Some(JsonValue::String(id)) => {
                let mut j: usize = 0;
                let mut found: Option<usize> = None;
                while j < updated.len() && found.is_none()
                    invariant
                        j <= updated@.len(),
                        uv == json_views(updated@),
                        match found {
                            Some(k) => k < updated@.len() && first_with_id(uv, id@, 0) == Some(
                                uv[k as int],
                            ),
                            None => first_with_id(uv, id@, 0) == first_with_id(uv, id@, j as int),
                        },
                    decreases updated@.len() - j,
                {
                    proof {
                        assert(uv[j as int] == updated@[j as int]@);
                    }
                    if let Some(JsonValue::String(u)) = updated[j].get("_rowid") {
                        if same_text(u, id) {
                            found = Some(j);
                        }
                    }
                    j = j + 1;
                }
                match found {
                    Some(k) => copy_json(&updated[k]),
                    None => copy_json(&rows[i]),
                }
            },
            _ => copy_json(&rows[i]),
        };
        let ghost rv = row@;
        out.push(row);
        proof {
            assert(json_views(rows@)[i as int] == rows@[i as int]@);
            assert(rv == want[i as int]);
            assert(json_views(out@) =~= before.push(rv));
            assert(want.take(i as int + 1) =~= want.take(i as int).push(want[i as int]));
        }
        i = i + 1;
    }
    proof {
        assert(want.take(i as int) =~= want);
    }
    out
}

/// The ids of the rows among the first `n` that match.
pub open spec fn deleted_ids(rows: Seq<(Seq<char>, Json)>, holds: Seq<bool>, n: nat) -> Seq<Seq<char>>
    decreases n,
{
    if n == 0 {
        Seq::empty()
    } else {
        let prev = deleted_ids(rows, holds, (n - 1) as nat);
        if holds[n - 1] {
            prev.push(rows[n - 1].0)
        } else {
            prev
        }
    }
}

/// The rows among the first `n` that do not match.
pub open spec fn surviving_rows(rows: Seq<(Seq<char>, Json)>, holds: Seq<bool>, n: nat) -> Seq<Json>
    decreases n,
{
    if n == 0 {
        Seq::empty()
    } else {
        let prev = surviving_rows(rows, holds, (n - 1) as nat);
        if holds[n - 1] {
            prev
        } else {
            prev.push(rows[n - 1].1)
        }
    }
}

/// Parts the rows into the ids of those that match and the rows that do not.
pub fn delete_rows(rows: &[(String, JsonValue)], holds: &[bool]) -> (r: (Vec<String>, Vec<JsonValue>))
    requires
        holds@.len() == rows@.len(),
    ensures
        text_views(r.0@) == deleted_ids(field_views(rows@), holds@, rows@.len()),
        json_views(r.1@) == surviving_rows(field_views(rows@), holds@, rows@.len()),
{
    let ghost all = field_views(rows@);
    let mut ids: Vec<String> = Vec::new();
    let mut kept: Vec<JsonValue> = Vec::new();
    let mut i: usize = 0;
    proof {
        assert(text_views(ids@) =~= Seq::<Seq<char>>::empty());
        assert(json_views(kept@) =~= Seq::<Json>::empty());
    }
    while i < rows.len()
        invariant
            i <= rows@.len(),
            all == field_views(rows@),
            holds@.len() == rows@.len(),
            text_views(ids@) == deleted_ids(all, holds@, i as nat),
            json_views(kept@) == surviving_rows(all, holds@, i as nat),
        decreases rows@.len() - i,
    {
        let ghost ids0 = text_views(ids@);
        let ghost kept0 = json_views(kept@);
        if holds[i] {
            ids.push(copy_text(&rows[i].0));
            proof {
                assert(text_views(ids@) =~= ids0.push(all[i as int].0));
            }
        } else {
            kept.push(copy_json(&rows[i].1));
            proof {
                assert(json_views(kept@) =~= kept0.push(all[i as int].1));
            }
        }
        i = i + 1;
    }
    (ids, kept)
}

/// Every row is deleted or survives, and none is both.
pub proof fn deleted_and_surviving_are_all(rows: Seq<(Seq<char>, Json)>, holds: Seq<bool>, n: nat)
    requires
        n <= rows.len(),
    ensures
        deleted_ids(rows, holds, n).len() + surviving_rows(rows, holds, n).len() == n,
    decreases n,
{
    if n > 0 {
        deleted_and_surviving_are_all(rows, holds, (n - 1) as nat);
    }
}

/// The target rows by their ids, without the deleted ones.
pub open spec fn kept_targets(existing: Seq<Json>, deletes: Seq<Seq<char>>) -> Seq<(Seq<char>, Json)>
    decreases existing.len(),
{
    if existing.len() == 0 {
        Seq::empty()
    } else {
        let prev = kept_targets(existing.drop_last(), deletes);
        let id = rowid_or_empty(existing.last());
        if deletes.contains(id) {
            prev
        } else {
            put(prev, id, existing.last())
        }
    }
}

/// What a written row is filed under: its id where it has one, else the JSON
/// text of its key column.
pub open spec fn upsert_key(row: Json, target_col: Seq<char>, source_col: Seq<char>) -> Seq<char> {
    match rowid_of(row) {
        Some(id) => id,
        None => match member(row, source_col) {
            Some(v) => json_shown(v),
            None => match member(row, target_col) {
                Some(v) => json_shown(v),
                None => match member(row, "_rowid"@) {
                    Some(v) => json_shown(v),
                    None => Seq::empty(),
                },
            },
        },
    }
}

/// The rows with the written ones in the places of those with their keys.
pub open spec fn upserted(
    base: Seq<(Seq<char>, Json)>,
    upserts: Seq<Json>,
    target_col: Seq<char>,
    source_col: Seq<char>,
) -> Seq<(Seq<char>, Json)>
    decreases upserts.len(),
{
    if upserts.len() == 0 {
        base
    } else {
        put(
            upserted(base, upserts.drop_last(), target_col, source_col),
            upsert_key(upserts.last(), target_col, source_col),
            upserts.last(),
        )
    }
}

/// The rows of the collection after a merge: the target rows without the deleted
/// ones, each replaced where a row was written for it, and the new ones.
pub open spec fn rows_after_merge(
    existing: Seq<Json>,
    upserts: Seq<Json>,
    deletes: Seq<Seq<char>>,
    target_col: Seq<char>,
    source_col: Seq<char>,
) -> Seq<Json> {
    let all = upserted(kept_targets(existing, deletes), upserts, target_col, source_col);
    Seq::new(all.len(), |i: int| all[i].1)
}

fn key_of_upsert(row: &JsonValue, target_col: &str, source_col: &str) -> (r: String)
    ensures
        r@ == upsert_key(row@, target_col@, source_col@),
{
    if let Some(JsonValue::String(id)) = row.get("_rowid") {
        return copy_text(id);
    }
    match row.get(source_col) {
        Some(v) => json_text(v),
        None => match row.get(target_col) {
            Some(v) => json_text(v),
            None => match row.get("_rowid") {
                Some(v) => json_text(v),
                None => String::new(),
            },
        },
    }
}

/// Rewrites the rows of a collection after a merge.
pub fn rewrite_after_merge(
    existing: &[JsonValue],
    to_upsert: &Vec<JsonValue>,
    to_delete: &Vec<String>,
    target_col: &str,
    source_col: &str,
) -> (r: Vec<JsonValue>)
    ensures
        json_views(r@) == rows_after_merge(
            json_views(existing@),
            json_views(to_upsert@),
            text_views(to_delete@),
            target_col@,
            source_col@,
        ),
{
    let ghost ev = json_views(existing@);
    let ghost uv = json_views(to_upsert@);
    let ghost dv = text_views(to_delete@);
    let mut kept: Vec<(String, JsonValue)> = Vec::new();
    let mut i: usize = 0;
    proof {
        assert(ev.take(0) =~= Seq::<Json>::empty());
        assert(field_views(kept@) =~= Seq::<(Seq<char>, Json)>::empty());
    }
    while i < existing.len()
        invariant
            i <= existing@.len(),
            ev == json_views(existing@),
            dv == text_views(to_delete@),
            field_views(kept@) == kept_targets(ev.take(i as int), dv),
        decreases existing@.len() - i,
    {
        proof {
            assert(ev.take(i as int + 1).drop_last() =~= ev.take(i as int));
            assert(ev.take(i as int + 1).last() == existing@[i as int]@);
        }
        let id = match existing[i].get("_rowid") {
            Some(JsonValue::String(s)) => copy_text(s),
            _ => String::new(),
        };
        if !holds_text(to_delete, &id) {
            put_field(&mut kept, &id, copy_json(&existing[i]));
        }
        i = i + 1;
    }
    let ghost base = field_views(kept@);
    let mut j: usize = 0;
    proof {
        assert(ev.take(i as int) =~= ev);
        assert(uv.take(0) =~= Seq::<Json>::empty());
    }
    while j < to_upsert.len()
        invariant
            j <= to_upsert@.len(),
            uv == json_views(to_upsert@),
            field_views(kept@) == upserted(base, uv.take(j as int), target_col@, source_col@),
        decreases to_upsert@.len() - j,
    {
        proof {
            assert(uv.take(j as int + 1).drop_last() =~= uv.take(j as int));
            assert(uv.take(j as int + 1).last() == to_upsert@[j as int]@);
        }
        let key = key_of_upsert(&to_upsert[j], target_col, source_col);
        put_field(&mut kept, &key, copy_json(&to_upsert[j]));
        j = j + 1;
    }
    proof {
        assert(uv.take(j as int) =~= uv);
    }
    let ghost all = field_views(kept@);
    let ghost want = Seq::new(all.len(), |i: int| all[i].1);
    let mut out: Vec<JsonValue> = Vec::new();
    let mut k: usize = 0;
    proof {
        assert(json_views(out@) =~= want.take(0));
    }
    while k < kept.len()
        invariant
            k <= kept@.len(),
            all == field_views(kept@),
            want == Seq::new(all.len(), |i: int| all[i].1),
            json_views(out@) == want.take(k as int),
        decreases kept@.len() - k,
    {
        let ghost before = json_views(out@);
        out.push(copy_json(&kept[k].1));
        proof {
            assert(json_views(out@) =~= before.push(want[k as int]));
            assert(want.take(k as int + 1) =~= want.take(k as int).push(want[k as int]));
        }
        k = k + 1;
    }
    proof {
        assert(want.take(k as int) =~= want);
    }
    out
}

/// The name of a marker column.
pub open spec fn marker_name(k: nat) -> Seq<char> {
    "_udf_marker_"@ + decimal(k)
}

/// The fields with a marker for each function call: 1 where the function
/// accepted the row, else 0.
pub open spec fn marked_fields(fields: Seq<(Seq<char>, Json)>, accepted: Seq<bool>) -> Seq<
    (Seq<char>, Json),
>
    decreases accepted.len(),
{
    if accepted.len() == 0 {
        fields
    } else {
        put(
            marked_fields(fields, accepted.drop_last()),
            marker_name((accepted.len() - 1) as nat),
            Json::Number(
                Number::Int(
                    if accepted.last() {
                        1
                    } else {
                        0
                    },
                ),
            ),
        )
    }
}

pub open spec fn marked_row(row: Json, accepted: Seq<bool>) -> Json {
    match row {
        Json::Object(fields) => Json::Object(marked_fields(fields, accepted)),
        _ => row,
    }
}

/// Adds the marker columns of the function calls to a row.
pub fn mark_row(row: &JsonValue, accepted: &[bool]) -> (r: JsonValue)
    ensures
        r@ == marked_row(row@, accepted@),
{
    let copy = copy_json(row);
    match copy {
        JsonValue::Object(fields0) => {
            proof {
                lemma_object_view(fields0);
            }
            let mut fields = fields0;
            let ghost base = field_views(fields@);
            let mut i: usize = 0;
            proof {
                assert(accepted@.take(0) =~= Seq::<bool>::empty());
            }
            while i < accepted.len()
                invariant
                    i <= accepted@.len(),
                    field_views(fields@) == marked_fields(base, accepted@.take(i as int)),
                decreases accepted@.len() - i,
            {
                proof {
                    assert(accepted@.take(i as int + 1).drop_last() =~= accepted@.take(i as int));
                    assert(accepted@.take(i as int + 1).last() == accepted@[i as int]);
                }
                let mut name = chars_of("_udf_marker_");
                let d = write_decimal(i as u64);
                push_chars(&mut name, &d);
                let text = text_of(&name);
                let v: i64 = if accepted[i] {
                    1
                } else {
                    0
                };
                put_field(&mut fields, &text, JsonValue::Number(JsonNumber::Int(v)));
                i = i + 1;
            }
            proof {
                assert(accepted@.take(i as int) =~= accepted@);
                lemma_object_view(fields);
            }
            JsonValue::Object(fields)
        },
        other => other,
    }
}

/// What stands after the last dot; the whole name where there is none.
pub open spec fn base_name(name: Seq<char>) -> Seq<char> {
    crate::media::extension(name)
}

/// Whether a SELECT list names a column, bare or under an alias.
pub open spec fn selects(c: Seq<char>, name: Seq<char>) -> bool {
    c == name || base_name(c) == name || ends_with(name, seq!['.'] + c)
}

pub open spec fn selected(columns: Seq<Seq<char>>, name: Seq<char>) -> bool {
    columns.len() == 0 || exists|i: int| 0 <= i < columns.len() && selects(#[trigger] columns[i], name)
}

/// Whether a column never comes out of a SELECT: the store's own columns and
/// the markers, under any alias.
pub open spec fn never_selected(name: Seq<char>) -> bool {
    is_hidden(base_name(name)) || starts_with(base_name(name), "_udf_marker_"@)
}

fn base_chars(name: &[char]) -> (r: Vec<char>)
    ensures
        r@ == base_name(name@),
{
    crate::media::extension_of(name)
}

fn column_selected(columns: &Vec<String>, name: &str) -> (r: bool)
    ensures
        r == selected(text_views(columns@), name@),
{
    if columns.len() == 0 {
        return true;
    }
    let ghost all = text_views(columns@);
    let chars = chars_of(name);
    let mut i: usize = 0;
    while i < columns.len()
        invariant
            i <= columns@.len(),
            columns@.len() > 0,
            all == text_views(columns@),
            chars@ == name@,
            forall|k: int| 0 <= k < i ==> !selects(#[trigger] all[k], name@),
        decreases columns@.len() - i,
    {
        let c = chars_of(&columns[i]);
        let mut dotted: Vec<char> = Vec::new();
        dotted.push('.');
        push_chars(&mut dotted, &c);
        let base = base_chars(&c);
        proof {
            assert(dotted@ =~= seq!['.'] + c@);
            assert(all[i as int] == c@);
        }
        let hit: bool = is_text(&c, name) || is_text(&base, name) || has_suffix(&chars, &dotted);
        proof {
            assert(hit == selects(all[i as int], name@));
        }
        if hit {
            return true;
        }
        i = i + 1;
    }
    false
}

fn column_never_selected(name: &str) -> (r: bool)
    ensures
        r == never_selected(name@),
{
    let chars = chars_of(name);
    let base = base_chars(&chars);
    let text = text_of(&base);
    let mark = chars_of("_udf_marker_");
    hidden(&text) || has_prefix(&base, &mark)
}

/// The fields of a row that a SELECT asks for.
pub open spec fn selected_fields(fields: Seq<(Seq<char>, Json)>, columns: Seq<Seq<char>>) -> Seq<
    (Seq<char>, Json),
>
    decreases fields.len(),
{
    if fields.len() == 0 {
        Seq::empty()
    } else {
        let prev = selected_fields(fields.drop_last(), columns);
        let name = fields.last().0;
        if selected(columns, name) && !never_selected(name) {
            prev.push(fields.last())
        } else {
            prev
        }
    }
}

/// The fields that a SELECT asks for, row after row.
pub open spec fn selected_cells(rows: Seq<Json>, columns: Seq<Seq<char>>) -> Seq<(Seq<char>, Json)>
    decreases rows.len(),
{
    if rows.len() == 0 {
        Seq::empty()
    } else {
        selected_cells(rows.drop_last(), columns) + selected_fields(
            fields_of(rows.last()),
            columns,
        )
    }
}

/// The values of a name among cells, in order.
pub open spec fn cells_named(cells: Seq<(Seq<char>, Json)>, name: Seq<char>) -> Seq<Json>
    decreases cells.len(),
{
    if cells.len() == 0 {
        Seq::empty()
    } else {
        let prev = cells_named(cells.drop_last(), name);
        if cells.last().0 == name {
            prev.push(cells.last().1)
        } else {
            prev
        }
    }
}

/// The result of a SELECT: for each name, in the order in which the names first
/// come, its values.
pub open spec fn select_columns(rows: Seq<Json>, columns: Seq<Seq<char>>) -> Seq<(Seq<char>, Seq<Json>)> {
    let cells = selected_cells(rows, columns);
    let names = crate::infer::names_with(Seq::empty(), cells);
    Seq::new(names.len(), |i: int| (names[i], cells_named(cells, names[i])))
}

pub open spec fn list_views(v: Seq<(String, Vec<JsonValue>)>) -> Seq<(Seq<char>, Seq<Json>)> {
    Seq::new(v.len(), |i: int| (v[i].0@, json_views(v[i].1@)))
}

fn collect_cells(rows: &[JsonValue], columns: &Vec<String>) -> (r: Vec<(String, JsonValue)>)
    ensures
        field_views(r@) == selected_cells(json_views(rows@), text_views(columns@)),
{
    let ghost all = json_views(rows@);
    let ghost cv = text_views(columns@);
    let mut out: Vec<(String, JsonValue)> = Vec::new();
    let mut i: usize = 0;
    proof {
        assert(all.take(0) =~= Seq::<Json>::empty());
        assert(field_views(out@) =~= Seq::<(Seq<char>, Json)>::empty());
    }
    while i < rows.len()
        invariant
            i <= rows@.len(),
            all == json_views(rows@),
            cv == text_views(columns@),
            field_views(out@) == selected_cells(all.take(i as int), cv),
        decreases rows@.len() - i,
    {
        let ghost start = field_views(out@);
        proof {
            assert(all.take(i as int + 1).drop_last() =~= all.take(i as int));
            assert(all.take(i as int + 1).last() == rows@[i as int]@);
            assert(start + Seq::<(Seq<char>, Json)>::empty() =~= start);
        }
        if let JsonValue::Object(fields) = &rows[i] {
            proof {
                lemma_object_view(*fields);
            }
            let ghost fv = field_views(fields@);
            let mut k: usize = 0;
            proof {
                assert(fv.take(0) =~= Seq::<(Seq<char>, Json)>::empty());
            }
            while k < fields.len()
                invariant
                    k <= fields@.len(),
                    fv == field_views(fields@),
                    cv == text_views(columns@),
                    field_views(out@) == start + selected_fields(fv.take(k as int), cv),
                decreases fields@.len() - k,
            {
                proof {
                    assert(fv.take(k as int + 1).drop_last() =~= fv.take(k as int));
                    assert(fv.take(k as int + 1).last() == fv[k as int]);
                }
                if column_selected(columns, &fields[k].0) && !column_never_selected(&fields[k].0) {
                    let ghost before = field_views(out@);
                    let ghost sel = selected_fields(fv.take(k as int), cv);
                    out.push((copy_text(&fields[k].0), copy_json(&fields[k].1)));
                    proof {
                        assert(field_views(out@) =~= before.push(fv[k as int]));
                        assert(start + sel.push(fv[k as int]) =~= (start + sel).push(fv[k as int]));
                    }
                }
                k = k + 1;
            }
            proof {
                assert(fv.take(k as int) =~= fv);
            }
        }
        i = i + 1;
    }
    proof {
        assert(all.take(i as int) =~= all);
    }
    out
}

/// Turns the rows of a SELECT into columns.
pub fn sql_columns(rows: &[JsonValue], columns: &Vec<String>) -> (r: Vec<(String, Vec<JsonValue>)>)
    ensures
        list_views(r@) == select_columns(json_views(rows@), text_views(columns@)),
{
    let cells = collect_cells(rows, columns);
    group_cells(&cells)
}

/// Groups cells by name.
pub open spec fn grouped(cells: Seq<(Seq<char>, Json)>) -> Seq<(Seq<char>, Seq<Json>)> {
    let names = crate::infer::names_with(Seq::empty(), cells);
    Seq::new(names.len(), |i: int| (names[i], cells_named(cells, names[i])))
}

fn group_cells(cells: &Vec<(String, JsonValue)>) -> (r: Vec<(String, Vec<JsonValue>)>)
    ensures
        list_views(r@) == grouped(field_views(cells@)),
{
    let ghost all = field_views(cells@);
    let mut names = Interner::new();
    let mut out: Vec<(String, Vec<JsonValue>)> = Vec::new();
    let mut i: usize = 0;
    proof {
        assert(all.take(0) =~= Seq::<(Seq<char>, Json)>::empty());
        assert(list_views(out@) =~= grouped(all.take(0)));
    }
    while i < cells.len()
        invariant
            i <= cells@.len(),
            all == field_views(cells@),
            names.wf(),
            names.keys() == crate::infer::names_with(Seq::empty(), all.take(i as int)),
            list_views(out@) == grouped(all.take(i as int)),
        decreases cells@.len() - i,
    {
        let ghost prev = all.take(i as int);
        let ghost next = all.take(i as int + 1);
        let ghost cell = all[i as int];
        let ghost before = list_views(out@);
        let ghost keys0 = names.keys();
        proof {
            assert(next.drop_last() =~= prev);
            assert(next.last() == cell);
            names.keys_are_distinct();
            assert(before.len() == keys0.len());
        }
        match names.get(&cells[i].0) {
            Some(k) => {
                proof {
                    assert(list_views(out@)[k as int] == (keys0[k as int], cells_named(
                        prev,
                        keys0[k as int],
                    )));
                }
                let v = copy_json(&cells[i].1);
                let ghost vv = v@;
                let ghost lists0 = out@;
                push_value(&mut out, k, v);
                proof {
                    assert forall|m: int| 0 <= m < keys0.len() implies #[trigger] list_views(out@)[m]
                        == grouped(next)[m] by {
                        assert(before[m] == (keys0[m], cells_named(prev, keys0[m])));
                        if m != k as int {
                            assert(keys0[m] != keys0[k as int]);
                        }
                    }
                    assert(list_views(out@) =~= grouped(next));
                }
            },
            None => {
                let v = copy_json(&cells[i].1);
                let ghost vv = v@;
                let mut list: Vec<JsonValue> = Vec::new();
                list.push(v);
                let ghost lv = json_views(list@);
                names.add(&cells[i].0);
                out.push((copy_text(&cells[i].0), list));
                proof {
                    assert(lv =~= seq![vv]);
                    lemma_no_cells_named(prev, cell.0);
                    assert(cells_named(next, cell.0) =~= seq![vv]);
                    assert(list_views(out@) =~= before.push((cell.0, lv)));
                    assert forall|m: int| 0 <= m < keys0.len() implies #[trigger] list_views(out@)[m]
                        == grouped(next)[m] by {
                        assert(before[m] == (keys0[m], cells_named(prev, keys0[m])));
                        assert(keys0.contains(keys0[m]));
                    }
                    assert(list_views(out@) =~= grouped(next));
                }
            },
        }
        i = i + 1;
    }
    proof {
        assert(all.take(i as int) =~= all);
    }
    out
}

fn push_value(lists: &mut Vec<(String, Vec<JsonValue>)>, k: usize, v: JsonValue)
    requires
        k < old(lists)@.len(),
    ensures
        list_views(final(lists)@) == list_views(old(lists)@).update(
            k as int,
            (old(lists)@[k as int].0@, json_views(old(lists)@[k as int].1@).push(v@)),
        ),
{
    let ghost before = list_views(lists@);
    let ghost vv = v@;
    let ghost entry = lists@[k as int];
    lists[k].1.push(v);
    proof {
        assert(json_views(lists@[k as int].1@) =~= json_views(entry.1@).push(vv));
        assert(list_views(lists@) =~= before.update(
            k as int,
            (entry.0@, json_views(entry.1@).push(vv)),
        ));
    }
}

/// A name that is not among the names of cells has no values.
proof fn lemma_no_cells_named(cells: Seq<(Seq<char>, Json)>, name: Seq<char>)
    requires
        !crate::infer::names_with(Seq::empty(), cells).contains(name),
    ensures
        cells_named(cells, name) == Seq::<Json>::empty(),
    decreases cells.len(),
{
    if cells.len() > 0 {
        let t = cells.drop_last();
        let prev = crate::infer::names_with(Seq::empty(), t);
        let all = crate::infer::names_with(Seq::empty(), cells);
        if prev.contains(name) {
            let i = choose|i: int| 0 <= i < prev.len() && prev[i] == name;
            assert(all[i] == name);
        }
        lemma_no_cells_named(t, name);
        if cells.last().0 == name {
            assert(all[prev.len() as int] == name);
        }
    }
}

/// The cells of one row of an INSERT: each value under its column's name.
pub open spec fn insert_cells(columns: Seq<Seq<char>>, values: Seq<Json>, n: nat) -> Seq<
    (Seq<char>, Json),
>
    decreases n,
{
    if n == 0 {
        Seq::empty()
    } else {
        let prev = insert_cells(columns, values, (n - 1) as nat);
        if n <= values.len() {
            prev.push((columns[n - 1], values[n - 1]))
        } else {
            prev
        }
    }
}

/// The cells of the rows of an INSERT.
pub open spec fn insert_all(columns: Seq<Seq<char>>, rows: Seq<Vec<JsonValue>>) -> Seq<(Seq<char>, Json)>
    decreases rows.len(),
{
    if rows.len() == 0 {
        Seq::empty()
    } else {
        insert_all(columns, rows.drop_last()) + insert_cells(
            columns,
            json_views(rows.last()@),
            columns.len(),
        )
    }
}

/// The columns of an INSERT with their values. A column named twice has all its
/// values under the first.
pub open spec fn insert_columns_of(columns: Seq<Seq<char>>, rows: Seq<Vec<JsonValue>>) -> Seq<
    (Seq<char>, Seq<Json>),
> {
    let cells = insert_all(columns, rows);
    Seq::new(
        columns.len(),
        |i: int|
            (
                columns[i],
                if columns.take(i).contains(columns[i]) {
                    Seq::empty()
                } else {
                    cells_named(cells, columns[i])
                },
            ),
    )
}

fn insert_cell_list(columns: &Vec<String>, rows: &[Vec<JsonValue>]) -> (r: Vec<(String, JsonValue)>)
    ensures
        field_views(r@) == insert_all(text_views(columns@), rows@),
{
    let ghost cv = text_views(columns@);
    let mut out: Vec<(String, JsonValue)> = Vec::new();
    let mut i: usize = 0;
    proof {
        assert(rows@.take(0) =~= Seq::<Vec<JsonValue>>::empty());
        assert(field_views(out@) =~= Seq::<(Seq<char>, Json)>::empty());
    }
    while i < rows.len()
        invariant
            i <= rows@.len(),
            cv == text_views(columns@),
            field_views(out@) == insert_all(cv, rows@.take(i as int)),
        decreases rows@.len() - i,
    {
        let ghost start = field_views(out@);
        let ghost values = json_views(rows@[i as int]@);
        proof {
            assert(rows@.take(i as int + 1).drop_last() =~= rows@.take(i as int));
            assert(rows@.take(i as int + 1).last() == rows@[i as int]);
            assert(start + Seq::<(Seq<char>, Json)>::empty() =~= start);
        }
        let mut k: usize = 0;
        while k < columns.len()
            invariant
                k <= columns@.len(),
                i < rows@.len(),
                cv == text_views(columns@),
                values == json_views(rows@[i as int]@),
                field_views(out@) == start + insert_cells(cv, values, k as nat),
            decreases columns@.len() - k,
        {
            if k < rows[i].len() {
                let ghost before = field_views(out@);
                let ghost prev = insert_cells(cv, values, k as nat);
                let ghost c = (cv[k as int], values[k as int]);
                out.push((copy_text(&columns[k]), copy_json(&rows[i][k])));
                proof {
                    assert(field_views(out@) =~= before.push(c));
                    assert(start + prev.push(c) =~= (start + prev).push(c));
                }
            }
            k = k + 1;
        }
        i = i + 1;
    }
    proof {
        assert(rows@.take(i as int) =~= rows@);
    }
    out
}

/// The values of a name among cells.
pub fn values_named(cells: &Vec<(String, JsonValue)>, name: &str) -> (r: Vec<JsonValue>)
    ensures
        json_views(r@) == cells_named(field_views(cells@), name@),
{
    let ghost all = field_views(cells@);
    let mut out: Vec<JsonValue> = Vec::new();
    let mut i: usize = 0;
    proof {
        assert(all.take(0) =~= Seq::<(Seq<char>, Json)>::empty());
        assert(json_views(out@) =~= Seq::<Json>::empty());
    }
    while i < cells.len()
        invariant
            i <= cells@.len(),
            all == field_views(cells@),
            json_views(out@) == cells_named(all.take(i as int), name@),
        decreases cells@.len() - i,
    {
        proof {
            assert(all.take(i as int + 1).drop_last() =~= all.take(i as int));
            assert(all.take(i as int + 1).last() == all[i as int]);
        }
        if same_text(&cells[i].0, name) {
            let ghost before = json_views(out@);
            out.push(copy_json(&cells[i].1));
            proof {
                assert(json_views(out@) =~= before.push(all[i as int].1));
            }
        }
        i = i + 1;
    }
    proof {
        assert(all.take(i as int) =~= all);
    }
    out
}

/// Turns the rows of an INSERT into columns.
pub fn insert_columns(columns: &Vec<String>, rows: &[Vec<JsonValue>]) -> (r: Vec<
    (String, Vec<JsonValue>),
>)
    ensures
        list_views(r@) == insert_columns_of(text_views(columns@), rows@),
{
    let cells = insert_cell_list(columns, rows);
    let ghost cv = text_views(columns@);
    let ghost want = insert_columns_of(cv, rows@);
    let mut out: Vec<(String, Vec<JsonValue>)> = Vec::new();
    let mut seen: Vec<String> = Vec::new();
    let mut i: usize = 0;
    proof {
        assert(list_views(out@) =~= want.take(0));
        assert(text_views(seen@) =~= cv.take(0));
    }
    while i < columns.len()
        invariant
            i <= columns@.len(),
            cv == text_views(columns@),
            want == insert_columns_of(cv, rows@),
            field_views(cells@) == insert_all(cv, rows@),
            text_views(seen@) == cv.take(i as int),
            list_views(out@) == want.take(i as int),
        decreases columns@.len() - i,
    {
        let ghost before = list_views(out@);
        let ghost seen0 = text_views(seen@);
        let list: Vec<JsonValue> = if holds_text(&seen, &columns[i]) {
            Vec::new()
        } else {
            values_named(&cells, &columns[i])
        };
        let ghost lv = json_views(list@);
        proof {
            if cv.take(i as int).contains(cv[i as int]) {
                assert(lv =~= Seq::<Json>::empty());
            }
        }
        out.push((copy_text(&columns[i]), list));
        seen.push(copy_text(&columns[i]));
        proof {
            assert(list_views(out@) =~= before.push((cv[i as int], lv)));
            assert(want.take(i as int + 1) =~= want.take(i as int).push(want[i as int]));
            assert(text_views(seen@) =~= seen0.push(cv[i as int]));
            assert(cv.take(i as int + 1) =~= cv.take(i as int).push(cv[i as int]));
        }
        i = i + 1;
    }
    proof {
        assert(want.take(i as int) =~= want);
    }
    out
}

} // verus!
