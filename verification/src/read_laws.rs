//! What reading rows gives.

use vstd::prelude::*;
use vstd::string::*;
use crate::blob::column_views;
use crate::change_laws::lemma_add_contains;
use crate::collection::{head_rows, rows_of_group, rows_of_shard, shard_rows, StoredGroup};
use crate::constants::{VT_BINARY, VT_BOOLEAN, VT_FLOAT64, VT_INT64, VT_STRING};
use crate::infer::{any_bool, any_float, any_int, any_other, any_text, inferred, names_of};
use crate::json::{float_of, i64_of, json_parsed, json_shown, key_at, lemma_key_at, lookup, member, put_then_lookup,
    Json, Number};
use crate::media::base64_text;
use crate::merge::fields_of;
use crate::merge_laws::lemma_push_contains;
use crate::order_laws::lemma_op_names;
use crate::policy::{tenanted, visible_rows};
use crate::predicate::{predicate_holds, value_order, Order};
use crate::query::{asked_fields, asked_rows, batches_of, columns_of_rows, open_fields, open_row, passes, passing,
    shown_names, table_says};
use crate::rows::{cut_rows, group_rows, kept_rows, listed, projected_fields, projected_row, row_at, row_count,
    row_fields, rowid_for, rows_meeting, rows_read, shown_cell, shown_rows, shown_text, stored_cell, CellExtras,
    RowGroup};
use crate::tally::{how_many, lemma_how_many_alike};
use crate::text::{decimal_int, split, trimmed};
use crate::typed::TypedView;
use crate::types::ColumnView;
use crate::where_clause::{clause_of, FloatTable, PredicateView};

verus! {

/// A row is read just where it meets every condition: it is one of the rows, and each
/// comparison holds of it.
pub proof fn rows_are_read_by_their_conditions(rows: Seq<Json>, preds: Seq<PredicateView>, row: Json)
    ensures
        rows_meeting(rows, preds).contains(row) <==> rows.contains(row) && forall|i: int|
            0 <= i < preds.len() ==> predicate_holds(row, (#[trigger] preds[i]).col, preds[i].op, preds[i].value),
    decreases rows.len(),
{
    if rows.len() > 0 {
        let rest = rows.drop_last();
        rows_are_read_by_their_conditions(rest, preds, row);
        assert(rows =~= rest.push(rows.last()));
        lemma_push_contains(rest, rows.last(), row);
        lemma_push_contains(rows_meeting(rest, preds), rows.last(), row);
    }
}

/// The rows that are read keep their order: as many as meet the conditions, each in the
/// place that those before it give.
pub proof fn read_rows_keep_their_order(rows: Seq<Json>, preds: Seq<PredicateView>, i: int)
    requires
        0 <= i < rows.len(),
    ensures
        rows_meeting(rows, preds).len() == how_many(rows.len(), |k: int| crate::rows::meets_all(rows[k], preds)),
        crate::rows::meets_all(rows[i], preds) ==> how_many(i as nat, |k: int| crate::rows::meets_all(rows[k], preds))
            < rows_meeting(rows, preds).len() && rows_meeting(rows, preds)[how_many(
            i as nat,
            |k: int| crate::rows::meets_all(rows[k], preds),
        ) as int] == rows[i],
    decreases rows.len(),
{
    let rest = rows.drop_last();
    let p = |k: int| crate::rows::meets_all(rows[k], preds);
    let q = |k: int| crate::rows::meets_all(rest[k], preds);
    assert(how_many(rows.len(), p) == how_many(rest.len(), p) + if p(rows.len() - 1) {
        1nat
    } else {
        0nat
    });
    lemma_how_many_alike(rest.len(), p, q);
    if rest.len() > 0 {
        let at = if i < rest.len() {
            i
        } else {
            0
        };
        read_rows_keep_their_order(rest, preds, at);
        lemma_how_many_alike(at as nat, p, q);
    } else {
        assert(rows_meeting(rest, preds) =~= Seq::<Json>::empty());
        assert(how_many(0, p) == 0);
    }
}

proof fn lemma_projected(row: Json, cols: Seq<Seq<char>>, col: Seq<char>)
    ensures
        lookup(projected_fields(row, cols), col) == (if cols.contains(col) {
            Some(
                match member(row, col) {
                    Some(v) => v,
                    None => Json::Null,
                },
            )
        } else {
            None
        }),
    decreases cols.len(),
{
    if cols.len() > 0 {
        let rest = cols.drop_last();
        lemma_projected(row, rest, col);
        let c = cols.last();
        assert(cols =~= rest.push(c));
        lemma_push_contains(rest, c, col);
        put_then_lookup(
            projected_fields(row, rest),
            c,
            match member(row, c) {
                Some(v) => v,
                None => Json::Null,
            },
            col,
        );
    } else {
        lemma_key_at(projected_fields(row, cols), col);
    }
}

/// A row under a list of columns has just these: each as the row has it, null where it
/// does not.
pub proof fn column_lists_choose_columns(row: Json, cols: Seq<Seq<char>>, col: Seq<char>)
    requires
        row is Object,
    ensures
        member(projected_row(row, cols), col) == (if cols.contains(col) {
            Some(
                match member(row, col) {
                    Some(v) => v,
                    None => Json::Null,
                },
            )
        } else {
            None
        }),
{
    lemma_projected(row, cols, col);
}

/// A list of columns has each name between commas that is not blank, trimmed.
pub proof fn lists_name_columns(parts: Seq<Seq<char>>, x: Seq<char>)
    ensures
        listed(parts).contains(x) <==> x.len() > 0 && exists|i: int|
            0 <= i < parts.len() && trimmed(#[trigger] parts[i]) == x,
    decreases parts.len(),
{
    if parts.len() > 0 {
        let rest = parts.drop_last();
        lists_name_columns(rest, x);
        let a = trimmed(parts.last());
        lemma_push_contains(listed(rest), a, x);
        assert(parts[parts.len() - 1] == parts.last());
        if exists|i: int| 0 <= i < rest.len() && trimmed(#[trigger] rest[i]) == x {
            let i = choose|i: int| 0 <= i < rest.len() && trimmed(#[trigger] rest[i]) == x;
            assert(trimmed(parts[i]) == x);
        }
        if exists|i: int| 0 <= i < parts.len() && trimmed(#[trigger] parts[i]) == x {
            let i = choose|i: int| 0 <= i < parts.len() && trimmed(#[trigger] parts[i]) == x;
            if i < rest.len() {
                assert(trimmed(rest[i]) == x);
            }
        }
    }
}

/// Under a limit the first rows come, as many as it says where there are so many;
/// without one all; and the column list applies to each.
pub proof fn limits_cut_after_the_first(rows: Seq<Json>, columns: Option<Seq<char>>, limit: Option<usize>, i: int)
    requires
        0 <= i < cut_rows(rows, columns, limit).len(),
    ensures
        cut_rows(rows, columns, limit).len() == (match limit {
            Some(n) => if n < rows.len() {
                n as nat
            } else {
                rows.len()
            },
            None => rows.len(),
        }),
        cut_rows(rows, columns, limit)[i] == (match columns {
            Some(c) => projected_row(rows[i], listed(split(c, ','))),
            None => rows[i],
        }),
{
}

/// Reading gives the rows of all groups that meet the clause, under the column list and
/// the limit; a clause that cannot be read is refused.
pub proof fn reading_applies_clause_columns_and_limit(
    groups: Seq<RowGroup>,
    filter: Option<Seq<char>>,
    columns: Option<Seq<char>>,
    limit: Option<usize>,
    floats: FloatTable,
)
    ensures
        filter is None ==> rows_read(groups, filter, columns, limit, floats) == Ok::<Seq<Json>, Seq<char>>(
            cut_rows(group_rows(groups, groups.len()), columns, limit),
        ),
        filter matches Some(w) ==> match clause_of(w, floats) {
            Ok(preds) => rows_read(groups, filter, columns, limit, floats) == Ok::<Seq<Json>, Seq<char>>(
                cut_rows(rows_meeting(group_rows(groups, groups.len()), preds), columns, limit),
            ),
            Err(e) => rows_read(groups, filter, columns, limit, floats) is Err,
        },
{
}

/// The rows of a collection are those of its groups, group after group, each row of each
/// once.
pub proof fn groups_give_all_their_rows(groups: Seq<RowGroup>, n: nat, g: int, i: int)
    requires
        n <= groups.len(),
        0 <= g < n,
        0 <= i < row_count(column_views(groups[g].columns@)),
    ensures
        group_rows(groups, n).contains(row_at(column_views(groups[g].columns@), groups[g].extras@, i, true)),
        group_rows(groups, n).len() == crate::tally::sum_to(
            n,
            |k: int| row_count(column_views(groups[k].columns@)),
        ),
    decreases n,
{
    lemma_group_len(groups, n);
    let cv = column_views(groups[n - 1].columns@);
    let prev = group_rows(groups, (n - 1) as nat);
    let more = shown_rows(cv, groups[n - 1].extras@, row_count(cv));
    let row = row_at(column_views(groups[g].columns@), groups[g].extras@, i, true);
    lemma_add_contains(prev, more, row);
    if g < n - 1 {
        groups_give_all_their_rows(groups, (n - 1) as nat, g, i);
    } else {
        assert(more[i] == row);
        assert(more.contains(row));
    }
}

proof fn lemma_group_len(groups: Seq<RowGroup>, n: nat)
    requires
        n <= groups.len(),
    ensures
        group_rows(groups, n).len() == crate::tally::sum_to(
            n,
            |k: int| row_count(column_views(groups[k].columns@)),
        ),
    decreases n,
{
    if n > 0 {
        lemma_group_len(groups, (n - 1) as nat);
    }
}

/// A column that stands once has, in a row, its cell of that row under its name; to show
/// a row, the columns for its id, version and deletion are left out.
pub proof fn rows_have_the_cells_of_their_columns(
    cols: Seq<ColumnView>,
    extras: Seq<CellExtras>,
    i: int,
    show: bool,
    c: int,
)
    requires
        0 <= c < cols.len(),
        forall|d: int| c < d < cols.len() ==> shown_text((#[trigger] cols[d]).name) != shown_text(cols[c].name),
    ensures
        ({
            let name = shown_text(cols[c].name);
            let meta = name == "_rowid"@ || name == "_version"@ || name == "_deleted"@;
            let more = if c < extras.len() {
                Some(extras[c])
            } else {
                None
            };
            &&& !show ==> member(row_at(cols, extras, i, show), name) == Some(stored_cell(cols[c], more, i))
            &&& show && !meta ==> member(row_at(cols, extras, i, show), name) == Some(shown_cell(cols[c], more, i))
            &&& show && meta ==> member(row_at(cols, extras, i, show), name) is None
        }),
{
    lemma_row_fields(cols, extras, i, show, cols.len(), c);
}

proof fn lemma_row_fields(cols: Seq<ColumnView>, extras: Seq<CellExtras>, i: int, show: bool, n: nat, c: int)
    requires
        0 <= c < cols.len(),
        n <= cols.len(),
        forall|d: int| c < d < cols.len() ==> shown_text((#[trigger] cols[d]).name) != shown_text(cols[c].name),
    ensures
        ({
            let name = shown_text(cols[c].name);
            let meta = name == "_rowid"@ || name == "_version"@ || name == "_deleted"@;
            let got = lookup(row_fields(cols, extras, i, show, n), name);
            let more = if c < extras.len() {
                Some(extras[c])
            } else {
                None
            };
            &&& show && meta ==> got is None
            &&& c < n && !show ==> got == Some(stored_cell(cols[c], more, i))
            &&& c < n && show && !meta ==> got == Some(shown_cell(cols[c], more, i))
        }),
    decreases n,
{
    let name = shown_text(cols[c].name);
    lemma_key_at(row_fields(cols, extras, i, show, n), name);
    if n > 0 {
        let d = n - 1;
        lemma_row_fields(cols, extras, i, show, d as nat, c);
        let prev = row_fields(cols, extras, i, show, d as nat);
        let other = shown_text(cols[d].name);
        let x = if d < extras.len() {
            Some(extras[d])
        } else {
            None
        };
        let v = if show {
            shown_cell(cols[d], x, i)
        } else {
            stored_cell(cols[d], x, i)
        };
        put_then_lookup(prev, other, v, name);
        if c < d {
            assert(other != name);
        }
    }
}

/// A stored cell is the value of its column: a whole number, a text, bytes as base64
/// under a mark; what is missing is null.
pub proof fn stored_cells_are_the_values(col: ColumnView, extras: Option<CellExtras>, i: int)
    requires
        0 <= i,
    ensures
        col.vtype == VT_INT64 ==> stored_cell(col, extras, i) == (if i < col.ints.len() {
            Json::Number(Number::Int(col.ints[i]))
        } else {
            Json::Null
        }),
        col.vtype == VT_STRING ==> stored_cell(col, extras, i) == (if i < col.strs.len() {
            Json::String(shown_text(col.strs[i]))
        } else {
            Json::Null
        }),
        col.vtype == VT_BINARY && i < col.bins.len() ==> stored_cell(col, extras, i) == Json::String(
            "__bin_b64__:"@ + base64_text(col.bins[i]),
        ),
        col.vtype == VT_FLOAT64 ==> stored_cell(col, extras, i) == Json::Null || (i < col.floats.len() && (
        stored_cell(col, extras, i) matches Json::Number(Number::Float(bits, _)) && bits == col.floats[i])),
        col.vtype == VT_BOOLEAN && i < col.ints.len() ==> shown_cell(col, extras, i) == Json::Bool(col.ints[i] != 0),
        col.vtype == VT_INT64 || col.vtype == VT_STRING || col.vtype == VT_FLOAT64 ==> shown_cell(col, extras, i)
            == stored_cell(col, extras, i),
{
}

/// The rows of a group are read with their ids: those that the mask keeps, all without
/// one.
pub proof fn kept_rows_are_those_of_the_mask(
    cols: Seq<ColumnView>,
    extras: Seq<CellExtras>,
    key_fields: Seq<Seq<char>>,
    mask: Option<Seq<bool>>,
    n: nat,
    i: int,
)
    requires
        0 <= i < n,
        mask matches Some(m) ==> m.len() >= n,
    ensures
        kept_rows(cols, extras, key_fields, mask, n).len() == how_many(
            n,
            |k: int| mask matches Some(m) ==> m[k],
        ),
        (mask matches Some(m) ==> m[i]) ==> kept_rows(cols, extras, key_fields, mask, n).contains(
            (rowid_for(row_at(cols, extras, i, false), key_fields), row_at(cols, extras, i, false)),
        ),
    decreases n,
{
    let p = |k: int| mask matches Some(m) ==> m[k];
    let row = row_at(cols, extras, n - 1, false);
    let prev = kept_rows(cols, extras, key_fields, mask, (n - 1) as nat);
    let x = (rowid_for(row_at(cols, extras, i, false), key_fields), row_at(cols, extras, i, false));
    lemma_push_contains(prev, (rowid_for(row, key_fields), row), x);
    assert(how_many(0, p) == 0);
    assert(how_many(n, p) == how_many((n - 1) as nat, p) + if p(n - 1) {
        1nat
    } else {
        0nat
    });
    if n > 1 {
        kept_rows_are_those_of_the_mask(
            cols,
            extras,
            key_fields,
            mask,
            (n - 1) as nat,
            if i < n - 1 {
                i
            } else {
                0
            },
        );
    } else {
        assert(kept_rows(cols, extras, key_fields, mask, 0) =~= Seq::<(Seq<char>, Json)>::empty());
    }
}

/// A row is known by its own id where it has one as a text or a whole number, else by
/// its first key field, else by `_key`, `id` or `key`.
pub proof fn rows_are_known_by_their_id(row: Json, key_fields: Seq<Seq<char>>, s: Seq<char>, n: i64)
    ensures
        member(row, "_rowid"@) == Some(Json::String(s)) ==> rowid_for(row, key_fields) == s,
        member(row, "_rowid"@) == Some(Json::Number(Number::Int(n))) ==> rowid_for(row, key_fields) == decimal_int(
            n as int,
        ),
        member(row, "_rowid"@) is None && key_fields.len() > 0 && member(row, key_fields[0]) == Some(
            Json::String(s),
        ) ==> rowid_for(row, key_fields) == s,
        member(row, "_rowid"@) is None && key_fields.len() > 0 && member(row, key_fields[0]) == Some(
            Json::Number(Number::Int(n)),
        ) ==> rowid_for(row, key_fields) == decimal_int(n as int),
        member(row, "_rowid"@) is None && key_fields.len() == 0 && member(row, "_key"@) is None && member(row, "id"@)
            == Some(Json::String(s)) ==> rowid_for(row, key_fields) == s,
{
}

/// The rows of a collection are those of all groups and of all shards, in order.
pub proof fn groups_and_shards_give_their_rows(
    groups: Seq<StoredGroup>,
    g: StoredGroup,
    shards: Seq<Seq<u8>>,
    s: Seq<u8>,
    key_fields: Seq<Seq<char>>,
)
    ensures
        head_rows(Seq::empty(), key_fields).len() == 0,
        head_rows(groups.push(g), key_fields) == head_rows(groups, key_fields) + rows_of_group(g, key_fields),
        shard_rows(Seq::empty(), key_fields).len() == 0,
        shard_rows(shards.push(s), key_fields) == shard_rows(shards, key_fields) + rows_of_shard(s, key_fields),
        json_parsed(s) matches Ok(Json::Array(items)) ==> rows_of_shard(s, key_fields).len() == items.len() && (forall|
            i: int,
        |
            0 <= i < items.len() ==> (#[trigger] rows_of_shard(s, key_fields)[i]) == (
                rowid_for(items[i], key_fields),
                items[i],
            )),
{
    assert(groups.push(g).drop_last() =~= groups);
    assert(shards.push(s).drop_last() =~= shards);
}

/// Which rows pass: those that pass every predicate. Where the value and the whole
/// column are whole numbers, the numbers are compared; else equality is as it is said to
/// be and order that of values. An operator that is not known lets every row pass.
pub proof fn rows_pass_by_their_predicates(
    rows: Seq<Json>,
    preds: Seq<PredicateView>,
    equal: Seq<Vec<bool>>,
    n: nat,
    i: int,
    p: int,
)
    requires
        n <= preds.len(),
        0 <= i < rows.len(),
        0 <= p < preds.len(),
    ensures
        passing(rows, preds, equal, n).len() == rows.len(),
        passing(rows, preds, equal, n)[i] <==> forall|q: int|
            0 <= q < n ==> passes(rows, #[trigger] preds[q], table_says(equal, q, i), i),
        ({
            let x = preds[p];
            let ok = passes(rows, x, table_says(equal, p, i), i);
            let said = p < equal.len() && i < equal[p]@.len() && equal[p]@[i];
            let cell = member(rows[i], x.col);
            let whole = i64_of(x.value) is Some && forall|k: int|
                0 <= k < rows.len() ==> member(#[trigger] rows[k], x.col) is Some && i64_of(
                    member(rows[k], x.col)->0,
                ) is Some;
            &&& whole ==> {
                let a = i64_of(cell->0)->0;
                let b = i64_of(x.value)->0;
                &&& x.op == "="@ || x.op == "=="@ ==> (ok <==> a == b)
                &&& x.op == "!="@ || x.op == "<>"@ ==> (ok <==> a != b)
                &&& x.op == "<"@ ==> (ok <==> a < b)
                &&& x.op == "<="@ ==> (ok <==> a <= b)
                &&& x.op == ">"@ ==> (ok <==> a > b)
                &&& x.op == ">="@ ==> (ok <==> a >= b)
            }
            &&& !whole ==> {
                &&& x.op == "="@ || x.op == "=="@ ==> (ok <==> said)
                &&& x.op == "!="@ || x.op == "<>"@ ==> (ok <==> !said)
                &&& x.op == "<"@ ==> (ok <==> value_order(cell, x.value) == Order::Less)
                &&& x.op == "<="@ ==> (ok <==> value_order(cell, x.value) != Order::Greater)
                &&& x.op == ">"@ ==> (ok <==> value_order(cell, x.value) == Order::Greater)
                &&& x.op == ">="@ ==> (ok <==> value_order(cell, x.value) != Order::Less)
            }
        }),
    decreases n,
{
    lemma_op_names();
    if n > 0 {
        rows_pass_by_their_predicates(rows, preds, equal, (n - 1) as nat, i, p);
        if passing(rows, preds, equal, n)[i] {
            assert forall|q: int| 0 <= q < n implies passes(rows, #[trigger] preds[q], table_says(equal, q, i), i) by {}
        }
        if forall|q: int| 0 <= q < n ==> passes(rows, #[trigger] preds[q], table_says(equal, q, i), i) {
            assert(passes(rows, preds[n - 1], table_says(equal, n - 1, i), i));
            assert forall|q: int| 0 <= q < n - 1 implies passes(
                rows,
                #[trigger] preds[q],
                table_says(equal, q, i),
                i,
            ) by {}
        }
    }
}

proof fn lemma_asked_fields(fields: Seq<(Seq<char>, Json)>, projection: Option<Seq<Seq<char>>>, col: Seq<char>)
    ensures
        lookup(asked_fields(fields, projection), col) == (if projection matches Some(names) ==> names.contains(col) {
            lookup(fields, col)
        } else {
            None
        }),
    decreases fields.len(),
{
    lemma_key_at(fields, col);
    lemma_key_at(asked_fields(fields, projection), col);
    if fields.len() > 0 {
        let rest = fields.drop_last();
        lemma_asked_fields(rest, projection, col);
        let prev = asked_fields(rest, projection);
        lemma_key_at(rest, col);
        lemma_key_at(prev, col);
        let all = asked_fields(fields, projection);
        if all.len() > prev.len() {
            assert(all.drop_last() =~= prev);
        }
        if let Some(i) = key_at(rest, col) {
            assert(rest[i] == fields[i]);
        }
    }
}

/// Under a projection a row has just the columns that it names, as they are.
pub proof fn projections_keep_what_they_name(row: Json, projection: Option<Seq<Seq<char>>>, col: Seq<char>)
    requires
        row is Object,
    ensures
        member(Json::Object(asked_fields(row->Object_0, projection)), col) == (if projection matches Some(names)
            ==> names.contains(col) {
            member(row, col)
        } else {
            None
        }),
{
    lemma_asked_fields(row->Object_0, projection, col);
}

proof fn lemma_shown_names(names: Seq<Seq<char>>, explicit: bool, x: Seq<char>)
    ensures
        shown_names(names, explicit).contains(x) <==> names.contains(x) && (explicit || !(x == "_rowid"@ || x
            == "_version"@ || x == "_deleted"@ || x == "_tenant"@)),
    decreases names.len(),
{
    if names.len() > 0 {
        let rest = names.drop_last();
        lemma_shown_names(rest, explicit, x);
        assert(names =~= rest.push(names.last()));
        lemma_push_contains(rest, names.last(), x);
        lemma_push_contains(shown_names(rest, explicit), names.last(), x);
    }
}

/// The result of a read has a column for each name that a row has, but for the store's
/// own where none is asked for by name; and a column has, for each row, what the row has
/// under its name.
pub proof fn results_have_the_columns_of_the_rows(rows: Seq<Json>, projection: Option<Seq<Seq<char>>>, name: Seq<char>, c: int, i: int)
    ensures
        ({
            let result = columns_of_rows(rows, projection);
            let asked = asked_rows(rows, projection);
            &&& (exists|k: int| 0 <= k < result.len() && (#[trigger] result[k]).0 == name) <==> (projection is Some || !(
            name == "_rowid"@ || name == "_version"@ || name == "_deleted"@ || name == "_tenant"@)) && exists|k: int|
                0 <= k < asked.len() && member(#[trigger] asked[k], name) is Some
            &&& 0 <= c < result.len() && 0 <= i < asked.len() ==> result[c].1.len() == asked.len() && result[c].1[i]
                == member(asked[i], result[c].0)
        }),
{
    let asked = asked_rows(rows, projection);
    let names = shown_names(names_of(asked), projection is Some);
    let result = columns_of_rows(rows, projection);
    lemma_shown_names(names_of(asked), projection is Some, name);
    if asked.len() > 0 {
        crate::change_laws::written_columns_are_those_of_the_rows(asked, name, 0);
    } else {
        assert(names_of(asked) =~= Seq::<Seq<char>>::empty());
    }
    if names.contains(name) {
        let k = choose|k: int| 0 <= k < names.len() && names[k] == name;
        assert(result[k].0 == name);
    }
    if exists|k: int| 0 <= k < result.len() && (#[trigger] result[k]).0 == name {
        let k = choose|k: int| 0 <= k < result.len() && (#[trigger] result[k]).0 == name;
        assert(names[k] == name);
    }
}

/// A row comes out of a read under a projection just where it has a column that is
/// asked for.
pub proof fn rows_with_asked_columns_come_out(rows: Seq<Json>, projection: Option<Seq<Seq<char>>>, i: int)
    requires
        0 <= i < rows.len(),
        rows[i] is Object,
        asked_fields(rows[i]->Object_0, projection).len() > 0,
    ensures
        asked_rows(rows, projection).contains(Json::Object(asked_fields(rows[i]->Object_0, projection))),
    decreases rows.len(),
{
    let rest = rows.drop_last();
    let x = Json::Object(asked_fields(rows[i]->Object_0, projection));
    let last = asked_fields(fields_of(rows.last()), projection);
    lemma_push_contains(asked_rows(rest, projection), Json::Object(last), x);
    if i < rest.len() {
        assert(rest[i] == rows[i]);
        rows_with_asked_columns_come_out(rest, projection, i);
    }
}

proof fn lemma_open_fields(fields: Seq<(Seq<char>, Json)>, col: Seq<char>)
    ensures
        lookup(open_fields(fields), col) == (if col == "_rowid"@ || col == "_version"@ || col == "_deleted"@ || col
            == "_tenant"@ {
            None
        } else {
            lookup(fields, col)
        }),
    decreases fields.len(),
{
    lemma_key_at(fields, col);
    lemma_key_at(open_fields(fields), col);
    if fields.len() > 0 {
        let rest = fields.drop_last();
        lemma_open_fields(rest, col);
        let prev = open_fields(rest);
        lemma_key_at(rest, col);
        lemma_key_at(prev, col);
        let all = open_fields(fields);
        if all.len() > prev.len() {
            assert(all.drop_last() =~= prev);
        }
        if let Some(i) = key_at(rest, col) {
            assert(rest[i] == fields[i]);
        }
    }
}

/// A row of a stream has no column of the store's own, and all others as they are.
pub proof fn streamed_rows_have_no_own_columns(row: Json, col: Seq<char>)
    ensures
        member(open_row(row), col) == (if col == "_rowid"@ || col == "_version"@ || col == "_deleted"@ || col
            == "_tenant"@ {
            None
        } else {
            member(row, col)
        }),
{
    if let Json::Object(fields) = row {
        lemma_open_fields(fields, col);
    }
}

/// The batches of a stream: all but the last have the size that was asked for, and the
/// last has what is left.
pub proof fn batches_have_one_size(rows: Seq<Json>, size: nat, b: int, i: int)
    requires
        size > 0,
        0 <= b < batches_of(rows, size).len(),
        0 <= i < batches_of(rows, size)[b].len(),
    ensures
        0 < batches_of(rows, size)[b].len() <= size,
        b + 1 < batches_of(rows, size).len() ==> batches_of(rows, size)[b].len() == size,
        b * size + i < rows.len(),
        batches_of(rows, size)[b][i] == rows[b * size + i],
    decreases rows.len(),
{
    if rows.len() > size {
        let rest = rows.skip(size as int);
        let all = batches_of(rows, size);
        let more = batches_of(rest, size);
        assert(all == seq![rows.take(size as int)] + more);
        assert(more.len() > 0);
        if b > 0 {
            assert(all[b] == more[b - 1]);
            batches_have_one_size(rest, size, b - 1, i);
            let at = (b - 1) * size + i;
            assert(b * size + i == at + size) by (nonlinear_arith)
                requires
                    at == (b - 1) * size + i,
            ;
            assert(at >= 0) by (nonlinear_arith)
                requires
                    at == (b - 1) * size + i,
                    b > 0,
                    i >= 0,
            ;
            assert(rest[at] == rows[at + size]);
        } else {
            assert(b * size == 0) by (nonlinear_arith)
                requires
                    b == 0,
            ;
            assert(all[0] == rows.take(size as int));
        }
    } else {
        assert(batches_of(rows, size) =~= seq![rows]);
        assert(b == 0);
        assert(b * size == 0) by (nonlinear_arith)
            requires
                b == 0,
        ;
    }
}

/// Under a policy a reader sees just the rows of its tenant, without one all.
pub proof fn tenants_see_their_rows(rows: Seq<Json>, tenant: Seq<char>, row: Json)
    ensures
        visible_rows(rows, None) == rows,
        visible_rows(rows, Some(tenant)).contains(row) <==> rows.contains(row) && member(row, "_tenant"@) == Some(
            Json::String(tenant),
        ),
    decreases rows.len(),
{
    if rows.len() > 0 {
        let rest = rows.drop_last();
        tenants_see_their_rows(rest, tenant, row);
        assert(rows =~= rest.push(rows.last()));
        lemma_push_contains(rest, rows.last(), row);
        lemma_push_contains(visible_rows(rest, Some(tenant)), rows.last(), row);
    }
}

/// Under a policy each row that is written names the tenant, unless the rows name
/// tenants themselves; all else is written as it is.
pub proof fn writers_name_their_tenant(cols: Seq<(Seq<char>, TypedView)>, tenant: Seq<char>, i: int)
    requires
        cols.len() > 0,
        crate::infer::typed_len(cols[0].1) > 0,
        0 <= i < crate::infer::typed_len(cols[0].1),
    ensures
        tenanted(cols, None) == cols,
        ({
            let out = tenanted(cols, Some(tenant));
            let named = exists|c: int| 0 <= c < cols.len() && (#[trigger] cols[c]).0 == "_tenant"@;
            &&& named ==> out == cols
            &&& !named ==> out.len() == cols.len() + 1 && out.take(cols.len() as int) == cols && out.last().0
                == "_tenant"@ && (out.last().1 matches TypedView::String(v) && v.len() == crate::infer::typed_len(
                cols[0].1,
            ) && v[i] == tenant)
        }),
{
    let out = tenanted(cols, Some(tenant));
    if out.len() > cols.len() {
        assert(out.take(cols.len() as int) =~= cols);
    }
}

/// The type of a column that is inferred: whole numbers, numbers or booleans where all
/// values but nulls are of that kind, with zero or false for a null; else texts.
pub proof fn types_are_inferred_from_all_values(values: Seq<Json>, i: int)
    requires
        0 <= i < values.len(),
    ensures
        ({
            let ints = forall|k: int|
                0 <= k < values.len() ==> (#[trigger] values[k]) == Json::Null || i64_of(values[k]) is Some;
            let numbers = forall|k: int| 0 <= k < values.len() ==> (#[trigger] values[k]) == Json::Null || values[k] is Number;
            let bools = forall|k: int| 0 <= k < values.len() ==> (#[trigger] values[k]) == Json::Null || values[k] is Bool;
            let nulls = forall|k: int| 0 <= k < values.len() ==> (#[trigger] values[k]) == Json::Null;
            match inferred(values) {
                TypedView::Int64(v) => ints && !nulls && v.len() == values.len() && v[i] == (match i64_of(values[i]) {
                    Some(n) => n,
                    None => 0,
                }),
                TypedView::Float64(v) => numbers && !ints && v.len() == values.len() && v[i] == (match float_of(
                    values[i],
                ) {
                    Some(f) => f,
                    None => 0,
                }),
                TypedView::Boolean(v) => bools && !nulls && v.len() == values.len() && v[i] == (values[i] == Json::Bool(
                    true,
                )),
                TypedView::String(v) => (nulls || (!numbers && !bools)) && v.len() == values.len() && v[i] == (match values[i] {
                    Json::String(s) => s,
                    Json::Null => Seq::empty(),
                    x => json_shown(x),
                }),
                _ => false,
            }
        }),
{
    if any_other(values) {
        let k = choose|k: int| 0 <= k < values.len() && ((#[trigger] values[k]) is Array || values[k] is Object);
        assert(!(values[k] == Json::Null));
    }
    if any_text(values) {
        let k = choose|k: int| 0 <= k < values.len() && (#[trigger] values[k]) is String;
        assert(!(values[k] == Json::Null));
    }
    if any_bool(values) {
        let k = choose|k: int| 0 <= k < values.len() && (#[trigger] values[k]) is Bool;
        assert(!(values[k] == Json::Null));
    }
    if any_float(values) {
        let k = choose|k: int| 0 <= k < values.len() && crate::infer::is_float(#[trigger] values[k]);
        assert(!(values[k] == Json::Null));
    }
    if any_int(values) {
        let k = choose|k: int| 0 <= k < values.len() && crate::infer::is_int(#[trigger] values[k]);
        assert(!(values[k] == Json::Null));
    }
    assert forall|k: int| 0 <= k < values.len() implies {
        ||| (#[trigger] values[k]) == Json::Null
        ||| crate::infer::is_int(values[k])
        ||| crate::infer::is_float(values[k])
        ||| values[k] is String
        ||| values[k] is Bool
        ||| values[k] is Array
        ||| values[k] is Object
    } by {}
}

} // verus!
