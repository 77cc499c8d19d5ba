//! Lists that are made of lists: what comes first stays first.

use vstd::prelude::*;
use crate::change::{cells_named, insert_all, selected_cells, selected_fields};
use crate::crdt::{live_rows, upsert, Entry};
use crate::file_rows::table_texts;
use crate::infer::{names_of, names_with};
use crate::json::{Json, JsonValue};
use crate::merge::data_fields;
use crate::policy::visible_rows;
use crate::query::{asked_fields, asked_rows, open_fields, shown_names};
use crate::ranking::{above_zero, entries_in, numbers_in, RankTerm};
use crate::rows::{listed, rows_meeting};
use crate::sql::{all_cells, first_names};
use crate::udf::call_args;
use crate::where_clause::PredicateView;

verus! {

/// The fields that are asked for come in their order.
pub proof fn asked_fields_keep_their_order(a: Seq<(Seq<char>, Json)>, b: Seq<(Seq<char>, Json)>, projection: Option<Seq<Seq<char>>>)
    ensures
        asked_fields(a + b, projection) == asked_fields(a, projection) + asked_fields(b, projection),
    decreases b.len(),
{
    if b.len() == 0 {
        assert(a + b =~= a);
        assert(asked_fields(b, projection) =~= Seq::<(Seq<char>, Json)>::empty());
        assert(asked_fields(a, projection) + asked_fields(b, projection) =~= asked_fields(a, projection));
    } else {
        let t = b.drop_last();
        asked_fields_keep_their_order(a, t, projection);
        assert((a + b).drop_last() =~= a + t);
        assert((a + b).last() == b.last());
        assert(asked_fields(a + b, projection) =~= asked_fields(a, projection) + asked_fields(b, projection));
    }
}

/// The rows that have a column asked for come in their order.
pub proof fn asked_rows_keep_their_order(a: Seq<Json>, b: Seq<Json>, projection: Option<Seq<Seq<char>>>)
    ensures
        asked_rows(a + b, projection) == asked_rows(a, projection) + asked_rows(b, projection),
    decreases b.len(),
{
    if b.len() == 0 {
        assert(a + b =~= a);
        assert(asked_rows(b, projection) =~= Seq::<Json>::empty());
        assert(asked_rows(a, projection) + asked_rows(b, projection) =~= asked_rows(a, projection));
    } else {
        let t = b.drop_last();
        asked_rows_keep_their_order(a, t, projection);
        assert((a + b).drop_last() =~= a + t);
        assert((a + b).last() == b.last());
        assert(asked_rows(a + b, projection) =~= asked_rows(a, projection) + asked_rows(b, projection));
    }
}

/// The names that are shown come in their order.
pub proof fn shown_names_keep_their_order(a: Seq<Seq<char>>, b: Seq<Seq<char>>, explicit: bool)
    ensures
        shown_names(a + b, explicit) == shown_names(a, explicit) + shown_names(b, explicit),
    decreases b.len(),
{
    if b.len() == 0 {
        assert(a + b =~= a);
        assert(shown_names(b, explicit) =~= Seq::<Seq<char>>::empty());
        assert(shown_names(a, explicit) + shown_names(b, explicit) =~= shown_names(a, explicit));
    } else {
        let t = b.drop_last();
        shown_names_keep_their_order(a, t, explicit);
        assert((a + b).drop_last() =~= a + t);
        assert((a + b).last() == b.last());
        assert(shown_names(a + b, explicit) =~= shown_names(a, explicit) + shown_names(b, explicit));
    }
}

/// The fields that are not hidden come in their order.
pub proof fn open_fields_keep_their_order(a: Seq<(Seq<char>, Json)>, b: Seq<(Seq<char>, Json)>)
    ensures
        open_fields(a + b) == open_fields(a) + open_fields(b),
    decreases b.len(),
{
    if b.len() == 0 {
        assert(a + b =~= a);
        assert(open_fields(b) =~= Seq::<(Seq<char>, Json)>::empty());
        assert(open_fields(a) + open_fields(b) =~= open_fields(a));
    } else {
        let t = b.drop_last();
        open_fields_keep_their_order(a, t);
        assert((a + b).drop_last() =~= a + t);
        assert((a + b).last() == b.last());
        assert(open_fields(a + b) =~= open_fields(a) + open_fields(b));
    }
}

/// The fields that are selected come in their order.
pub proof fn selected_fields_keep_their_order(a: Seq<(Seq<char>, Json)>, b: Seq<(Seq<char>, Json)>, columns: Seq<Seq<char>>)
    ensures
        selected_fields(a + b, columns) == selected_fields(a, columns) + selected_fields(b, columns),
    decreases b.len(),
{
    if b.len() == 0 {
        assert(a + b =~= a);
        assert(selected_fields(b, columns) =~= Seq::<(Seq<char>, Json)>::empty());
        assert(selected_fields(a, columns) + selected_fields(b, columns) =~= selected_fields(a, columns));
    } else {
        let t = b.drop_last();
        selected_fields_keep_their_order(a, t, columns);
        assert((a + b).drop_last() =~= a + t);
        assert((a + b).last() == b.last());
        assert(selected_fields(a + b, columns) =~= selected_fields(a, columns) + selected_fields(b, columns));
    }
}

/// The fields that are selected come row by row.
pub proof fn selected_cells_come_row_by_row(a: Seq<Json>, b: Seq<Json>, columns: Seq<Seq<char>>)
    ensures
        selected_cells(a + b, columns) == selected_cells(a, columns) + selected_cells(b, columns),
    decreases b.len(),
{
    if b.len() == 0 {
        assert(a + b =~= a);
        assert(selected_cells(b, columns) =~= Seq::<(Seq<char>, Json)>::empty());
        assert(selected_cells(a, columns) + selected_cells(b, columns) =~= selected_cells(a, columns));
    } else {
        let t = b.drop_last();
        selected_cells_come_row_by_row(a, t, columns);
        assert((a + b).drop_last() =~= a + t);
        assert((a + b).last() == b.last());
        assert(selected_cells(a + b, columns) =~= selected_cells(a, columns) + selected_cells(b, columns));
    }
}

/// The values under a name come in the order of the fields.
pub proof fn cells_of_a_name_keep_their_order(a: Seq<(Seq<char>, Json)>, b: Seq<(Seq<char>, Json)>, name: Seq<char>)
    ensures
        cells_named(a + b, name) == cells_named(a, name) + cells_named(b, name),
    decreases b.len(),
{
    if b.len() == 0 {
        assert(a + b =~= a);
        assert(cells_named(b, name) =~= Seq::<Json>::empty());
        assert(cells_named(a, name) + cells_named(b, name) =~= cells_named(a, name));
    } else {
        let t = b.drop_last();
        cells_of_a_name_keep_their_order(a, t, name);
        assert((a + b).drop_last() =~= a + t);
        assert((a + b).last() == b.last());
        assert(cells_named(a + b, name) =~= cells_named(a, name) + cells_named(b, name));
    }
}

/// The fields of rows come row by row.
pub proof fn cells_come_row_by_row(a: Seq<Json>, b: Seq<Json>)
    ensures
        all_cells(a + b) == all_cells(a) + all_cells(b),
    decreases b.len(),
{
    if b.len() == 0 {
        assert(a + b =~= a);
        assert(all_cells(b) =~= Seq::<(Seq<char>, Json)>::empty());
        assert(all_cells(a) + all_cells(b) =~= all_cells(a));
    } else {
        let t = b.drop_last();
        cells_come_row_by_row(a, t);
        assert((a + b).drop_last() =~= a + t);
        assert((a + b).last() == b.last());
        assert(all_cells(a + b) =~= all_cells(a) + all_cells(b));
    }
}

/// The names in a list come in their order.
pub proof fn listed_names_keep_their_order(a: Seq<Seq<char>>, b: Seq<Seq<char>>)
    ensures
        listed(a + b) == listed(a) + listed(b),
    decreases b.len(),
{
    if b.len() == 0 {
        assert(a + b =~= a);
        assert(listed(b) =~= Seq::<Seq<char>>::empty());
        assert(listed(a) + listed(b) =~= listed(a));
    } else {
        let t = b.drop_last();
        listed_names_keep_their_order(a, t);
        assert((a + b).drop_last() =~= a + t);
        assert((a + b).last() == b.last());
        assert(listed(a + b) =~= listed(a) + listed(b));
    }
}

/// The arguments of a call come in their order.
pub proof fn arguments_keep_their_order(a: Seq<Seq<char>>, b: Seq<Seq<char>>)
    ensures
        call_args(a + b) == call_args(a) + call_args(b),
    decreases b.len(),
{
    if b.len() == 0 {
        assert(a + b =~= a);
        assert(call_args(b) =~= Seq::<Seq<char>>::empty());
        assert(call_args(a) + call_args(b) =~= call_args(a));
    } else {
        let t = b.drop_last();
        arguments_keep_their_order(a, t);
        assert((a + b).drop_last() =~= a + t);
        assert((a + b).last() == b.last());
        assert(call_args(a + b) =~= call_args(a) + call_args(b));
    }
}

/// The fields that are data come in their order.
pub proof fn data_fields_keep_their_order(a: Seq<(Seq<char>, Json)>, b: Seq<(Seq<char>, Json)>)
    ensures
        data_fields(a + b) == data_fields(a) + data_fields(b),
    decreases b.len(),
{
    if b.len() == 0 {
        assert(a + b =~= a);
        assert(data_fields(b) =~= Seq::<(Seq<char>, Json)>::empty());
        assert(data_fields(a) + data_fields(b) =~= data_fields(a));
    } else {
        let t = b.drop_last();
        data_fields_keep_their_order(a, t);
        assert((a + b).drop_last() =~= a + t);
        assert((a + b).last() == b.last());
        assert(data_fields(a + b) =~= data_fields(a) + data_fields(b));
    }
}

/// The rows that are not deleted come in the order of their entries.
pub proof fn live_rows_keep_their_order(a: Seq<Entry>, b: Seq<Entry>)
    ensures
        live_rows(a + b) == live_rows(a) + live_rows(b),
    decreases b.len(),
{
    if b.len() == 0 {
        assert(a + b =~= a);
        assert(live_rows(b) =~= Seq::<Json>::empty());
        assert(live_rows(a) + live_rows(b) =~= live_rows(a));
    } else {
        let t = b.drop_last();
        live_rows_keep_their_order(a, t);
        assert((a + b).drop_last() =~= a + t);
        assert((a + b).last() == b.last());
        assert(live_rows(a + b) =~= live_rows(a) + live_rows(b));
    }
}

/// The numbers of a vector come in their order.
pub proof fn numbers_keep_their_order(a: Seq<Json>, b: Seq<Json>)
    ensures
        numbers_in(a + b) == numbers_in(a) + numbers_in(b),
    decreases b.len(),
{
    if b.len() == 0 {
        assert(a + b =~= a);
        assert(numbers_in(b) =~= Seq::<u64>::empty());
        assert(numbers_in(a) + numbers_in(b) =~= numbers_in(a));
    } else {
        let t = b.drop_last();
        numbers_keep_their_order(a, t);
        assert((a + b).drop_last() =~= a + t);
        assert((a + b).last() == b.last());
        assert(numbers_in(a + b) =~= numbers_in(a) + numbers_in(b));
    }
}

/// The scores above zero come in their order.
pub proof fn scores_above_zero_keep_their_order(a: Seq<(usize, u64)>, b: Seq<(usize, u64)>)
    ensures
        above_zero(a + b) == above_zero(a) + above_zero(b),
    decreases b.len(),
{
    if b.len() == 0 {
        assert(a + b =~= a);
        assert(above_zero(b) =~= Seq::<(usize, u64)>::empty());
        assert(above_zero(a) + above_zero(b) =~= above_zero(a));
    } else {
        let t = b.drop_last();
        scores_above_zero_keep_their_order(a, t);
        assert((a + b).drop_last() =~= a + t);
        assert((a + b).last() == b.last());
        assert(above_zero(a + b) =~= above_zero(a) + above_zero(b));
    }
}

/// The values of an INSERT come row by row.
pub proof fn inserted_cells_come_row_by_row(a: Seq<Vec<JsonValue>>, b: Seq<Vec<JsonValue>>, columns: Seq<Seq<char>>)
    ensures
        insert_all(columns, a + b) == insert_all(columns, a) + insert_all(columns, b),
    decreases b.len(),
{
    if b.len() == 0 {
        assert(a + b =~= a);
        assert(insert_all(columns, b) =~= Seq::<(Seq<char>, Json)>::empty());
        assert(insert_all(columns, a) + insert_all(columns, b) =~= insert_all(columns, a));
    } else {
        let t = b.drop_last();
        inserted_cells_come_row_by_row(a, t, columns);
        assert((a + b).drop_last() =~= a + t);
        assert((a + b).last() == b.last());
        assert(insert_all(columns, a + b) =~= insert_all(columns, a) + insert_all(columns, b));
    }
}

/// The rows that a tenant sees come in their order.
pub proof fn visible_rows_keep_their_order(a: Seq<Json>, b: Seq<Json>, tenant: Seq<char>)
    ensures
        visible_rows(a + b, Some(tenant)) == visible_rows(a, Some(tenant)) + visible_rows(b, Some(tenant)),
    decreases b.len(),
{
    if b.len() == 0 {
        assert(a + b =~= a);
        assert(visible_rows(b, Some(tenant)) =~= Seq::<Json>::empty());
        assert(visible_rows(a, Some(tenant)) + visible_rows(b, Some(tenant)) =~= visible_rows(a, Some(tenant)));
    } else {
        let t = b.drop_last();
        visible_rows_keep_their_order(a, t, tenant);
        assert((a + b).drop_last() =~= a + t);
        assert((a + b).last() == b.last());
        assert(visible_rows(a + b, Some(tenant)) =~= visible_rows(a, Some(tenant)) + visible_rows(b, Some(tenant)));
    }
}

/// The rows that meet a clause come in their order.
pub proof fn rows_that_meet_keep_their_order(a: Seq<Json>, b: Seq<Json>, preds: Seq<PredicateView>)
    ensures
        rows_meeting(a + b, preds) == rows_meeting(a, preds) + rows_meeting(b, preds),
    decreases b.len(),
{
    if b.len() == 0 {
        assert(a + b =~= a);
        assert(rows_meeting(b, preds) =~= Seq::<Json>::empty());
        assert(rows_meeting(a, preds) + rows_meeting(b, preds) =~= rows_meeting(a, preds));
    } else {
        let t = b.drop_last();
        rows_that_meet_keep_their_order(a, t, preds);
        assert((a + b).drop_last() =~= a + t);
        assert((a + b).last() == b.last());
        assert(rows_meeting(a + b, preds) =~= rows_meeting(a, preds) + rows_meeting(b, preds));
    }
}

/// The cells of lines come line by line.
pub proof fn table_texts_keep_their_order(a: Seq<Seq<char>>, b: Seq<Seq<char>>, delimiter: char)
    ensures
        table_texts(a + b, delimiter) == table_texts(a, delimiter) + table_texts(b, delimiter),
    decreases b.len(),
{
    if b.len() == 0 {
        assert(a + b =~= a);
        assert(table_texts(b, delimiter) =~= Seq::<Seq<char>>::empty());
        assert(table_texts(a, delimiter) + table_texts(b, delimiter) =~= table_texts(a, delimiter));
    } else {
        let t = b.drop_last();
        table_texts_keep_their_order(a, t, delimiter);
        assert((a + b).drop_last() =~= a + t);
        assert((a + b).last() == b.last());
        assert(table_texts(a + b, delimiter) =~= table_texts(a, delimiter) + table_texts(b, delimiter));
    }
}

/// The names so far keep their places, and new ones come behind them.
pub proof fn new_names_come_last(names: Seq<Seq<char>>, fields: Seq<(Seq<char>, Json)>, f: (Seq<char>, Json))
    ensures
        names_with(names, Seq::empty()) == names,
        names_with(names, fields.push(f)) == (if names_with(names, fields).contains(f.0) {
            names_with(names, fields)
        } else {
            names_with(names, fields).push(f.0)
        }),
{
    assert(fields.push(f).drop_last() =~= fields);
}

/// The columns of rows come in the order of the first rows that have them.
pub proof fn columns_come_as_they_first_appear(rows: Seq<Json>, row: Json, i: int)
    requires
        0 <= i < names_of(rows).len(),
    ensures
        names_of(rows.push(row)).len() >= names_of(rows).len(),
        names_of(rows.push(row))[i] == names_of(rows)[i],
{
    assert(rows.push(row).drop_last() =~= rows);
    if let Json::Object(fields) = row {
        lemma_names_stay(names_of(rows), fields, i);
    }
}

proof fn lemma_names_stay(names: Seq<Seq<char>>, fields: Seq<(Seq<char>, Json)>, i: int)
    requires
        0 <= i < names.len(),
    ensures
        names_with(names, fields).len() >= names.len(),
        names_with(names, fields)[i] == names[i],
    decreases fields.len(),
{
    if fields.len() > 0 {
        lemma_names_stay(names, fields.drop_last(), i);
    }
}

/// Names that come again are left out, and the others keep their order.
pub proof fn first_names_keep_their_order(names: Seq<Seq<char>>, name: Seq<char>)
    ensures
        first_names(Seq::empty()).len() == 0,
        names.contains(name) && first_names(names).contains(name) ==> first_names(names.push(name)) == first_names(names),
        !first_names(names).contains(name) ==> first_names(names.push(name)) == first_names(names).push(name),
{
    assert(names.push(name).drop_last() =~= names);
}

/// Rows that are ranked come in the order in which they first appear in the rankings.
pub proof fn ranked_rows_come_as_they_first_appear(terms: Seq<(usize, RankTerm)>, i: int, j: int, q: int)
    requires
        0 <= i < j < entries_in(terms).len(),
        0 <= q < terms.len(),
        terms[q].0 == entries_in(terms)[j],
    ensures
        exists|p: int| 0 <= p < q && (#[trigger] terms[p]).0 == entries_in(terms)[i],
    decreases terms.len(),
{
    let rest = terms.drop_last();
    let prev = entries_in(rest);
    let last = terms.len() - 1;
    if j < prev.len() {
        if q < last {
            assert(rest[q] == terms[q]);
            ranked_rows_come_as_they_first_appear(rest, i, j, q);
            let p = choose|p: int| 0 <= p < q && (#[trigger] rest[p]).0 == prev[i];
            assert(terms[p].0 == prev[i]);
        } else {
            let p = lemma_entry_stands(rest, i);
            assert(terms[p] == rest[p]);
        }
    } else {
        let p = lemma_entry_stands(rest, i);
        assert(terms[p] == rest[p]);
        if q < last {
            lemma_entry_is_there(rest, q);
            assert(rest[q] == terms[q]);
        }
    }
}

proof fn lemma_entry_stands(terms: Seq<(usize, RankTerm)>, i: int) -> (p: int)
    requires
        0 <= i < entries_in(terms).len(),
    ensures
        0 <= p < terms.len(),
        terms[p].0 == entries_in(terms)[i],
    decreases terms.len(),
{
    let rest = terms.drop_last();
    if i < entries_in(rest).len() {
        lemma_entry_stands(rest, i)
    } else {
        terms.len() - 1
    }
}

proof fn lemma_entry_is_there(terms: Seq<(usize, RankTerm)>, q: int)
    requires
        0 <= q < terms.len(),
    ensures
        entries_in(terms).contains(terms[q].0),
    decreases terms.len(),
{
    let rest = terms.drop_last();
    let prev = entries_in(rest);
    if q < rest.len() {
        lemma_entry_is_there(rest, q);
        let k = choose|k: int| 0 <= k < prev.len() && prev[k] == rest[q].0;
        assert(entries_in(terms)[k] == terms[q].0);
    } else if !prev.contains(terms.last().0) {
        assert(entries_in(terms)[prev.len() as int] == terms[q].0);
    }
}

/// A row that is written again keeps its place among the entries, and a new one comes
/// last.
pub proof fn entries_keep_their_places(entries: Seq<Entry>, e: Entry, i: int)
    requires
        0 <= i < entries.len(),
    ensures
        upsert(entries, e).len() == entries.len() || upsert(entries, e) == entries.push(e),
        entries[i].id != e.id ==> upsert(entries, e)[i] == entries[i],
        upsert(entries, e)[i].id == entries[i].id,
{
    lemma_spot(entries, e.id);
}

proof fn lemma_spot(entries: Seq<Entry>, id: Seq<char>)
    ensures
        crate::crdt::spot(entries, id) matches Some(k) ==> 0 <= k < entries.len() && entries[k].id == id,
    decreases entries.len(),
{
    if entries.len() > 0 {
        lemma_spot(entries.drop_last(), id);
    }
}

} // verus!
