//! SQL statements: what is left of them once they are parsed, row by row and
//! step by step.

use vstd::prelude::*;
use vstd::string::*;
use crate::change::{cells_named, insert_columns, insert_columns_of, list_views, mark_row, marked_row, select_columns,
    sql_columns, values_named};
use crate::infer::{masked, names_with};
use crate::intern::Interner;
use crate::json::{copy_json, field_views, json_views, lemma_object_view, put, put_field, Json, JsonValue};
use crate::merge::fields_of;
use crate::query::{alias_row, aliased_row, execute_join, join_rows};
use crate::sql_text::{sql_of, where_expr_to_sql, WhereExpr};
use crate::text::{ascii_lowered, chars_of, copy_chars, copy_text, has_prefix, lower_chars, space, starts_with, text_views,
    trim_start};
use crate::udf::{call_views, extract_udf_calls_from_sql, extracted, Call};

verus! {

/// Whether a statement is a SELECT.
pub open spec fn is_select(sql: Seq<char>) -> bool {
    starts_with(ascii_lowered(trim_start(sql)), "select"@)
}

/// A statement with the calls of registered functions taken out. Only a SELECT
/// can have such calls.
pub open spec fn prepared(sql: Seq<char>, names: Seq<Seq<char>>) -> (Seq<char>, Seq<Call>) {
    if is_select(sql) && names.len() > 0 {
        extracted(sql, names)
    } else {
        (sql, Seq::empty())
    }
}

fn selects(sql: &str) -> (r: bool)
    ensures
        r == is_select(sql@),
{
    let chars = chars_of(sql);
    let mut i: usize = 0;
    proof {
        assert(chars@.skip(0) =~= chars@);
    }
    while i < chars.len() && space(chars[i])
        invariant
            i <= chars@.len(),
            trim_start(chars@) == trim_start(chars@.skip(i as int)),
        decreases chars@.len() - i,
    {
        proof {
            assert(chars@.skip(i as int).drop_first() =~= chars@.skip(i as int + 1));
        }
        i = i + 1;
    }
    let rest = copy_chars(&chars, i, chars.len());
    proof {
        assert(rest@ =~= chars@.skip(i as int));
        assert(trim_start(chars@) == rest@);
    }
    let low = lower_chars(&rest);
    let word = chars_of("select");
    has_prefix(&low, &word)
}

/// Takes the calls of registered functions out of a statement.
pub fn prepare_sql(sql: &str, udf_names: &Vec<String>) -> (r: (String, Vec<(String, Vec<String>)>))
    ensures
        (r.0@, call_views(r.1@)) == prepared(sql@, text_views(udf_names@)),
{
    if selects(sql) && udf_names.len() > 0 {
        extract_udf_calls_from_sql(sql, udf_names)
    } else {
        let calls: Vec<(String, Vec<String>)> = Vec::new();
        proof {
            assert(call_views(calls@) =~= Seq::<Call>::empty());
        }
        (copy_text(sql), calls)
    }
}

/// Rows under an alias, where there is one.
pub open spec fn aliased(rows: Seq<Json>, alias: Option<Seq<char>>) -> Seq<Json> {
    match alias {
        Some(a) => Seq::new(rows.len(), |i: int| aliased_row(rows[i], a)),
        None => rows,
    }
}

/// A table to join with.
pub struct JoinStep {
    pub rows: Vec<JsonValue>,
    pub alias: Option<String>,
    pub on: Vec<(String, String)>,
    pub left: bool,
}

pub open spec fn alias_view(alias: Option<String>) -> Option<Seq<char>> {
    match alias {
        Some(a) => Some(a@),
        None => None,
    }
}

/// The rows after the joins, one after the other.
pub open spec fn joined(base: Seq<Json>, joins: Seq<JoinStep>) -> Seq<Json>
    decreases joins.len(),
{
    if joins.len() == 0 {
        base
    } else {
        let prev = joined(base, joins.drop_last());
        let step = joins.last();
        join_rows(
            prev,
            aliased(json_views(step.rows@), alias_view(step.alias)),
            step.on@,
            step.left,
            prev.len(),
        )
    }
}

fn alias_rows(rows: &Vec<JsonValue>, alias: &Option<String>) -> (r: Vec<JsonValue>)
    ensures
        json_views(r@) == aliased(json_views(rows@), alias_view(*alias)),
{
    let ghost want = aliased(json_views(rows@), alias_view(*alias));
    let mut out: Vec<JsonValue> = Vec::new();
    let mut i: usize = 0;
    while i < rows.len()
        invariant
            i <= rows@.len(),
            want == aliased(json_views(rows@), alias_view(*alias)),
            out@.len() == i,
            forall|k: int| 0 <= k < i ==> (#[trigger] out@[k])@ == want[k],
        decreases rows@.len() - i,
    {
        let row: JsonValue = match alias {
            Some(a) => alias_row(&rows[i], a),
            None => copy_json(&rows[i]),
        };
        out.push(row);
        i = i + 1;
    }
    proof {
        assert(json_views(out@) =~= want);
    }
    out
}

/// Joins the rows of a SELECT: the base table under its alias, then each table
/// in turn.
pub fn select_rows(base: &Vec<JsonValue>, alias: &Option<String>, joins: &Vec<JoinStep>) -> (r: Vec<JsonValue>)
    ensures
        json_views(r@) == joined(aliased(json_views(base@), alias_view(*alias)), joins@),
{
    let ghost start = aliased(json_views(base@), alias_view(*alias));
    let mut rows = alias_rows(base, alias);
    let mut i: usize = 0;
    proof {
        assert(joins@.take(0) =~= Seq::<JoinStep>::empty());
    }
    while i < joins.len()
        invariant
            i <= joins@.len(),
            json_views(rows@) == joined(start, joins@.take(i as int)),
        decreases joins@.len() - i,
    {
        proof {
            assert(joins@.take(i as int + 1).drop_last() =~= joins@.take(i as int));
            assert(joins@.take(i as int + 1).last() == joins@[i as int]);
        }
        let right = alias_rows(&joins[i].rows, &joins[i].alias);
        rows = execute_join(&rows, &right, &joins[i].on, joins[i].left);
        i = i + 1;
    }
    proof {
        assert(joins@.take(i as int) =~= joins@);
    }
    rows
}

/// What the functions said of row `i`; nothing is accepted where nothing is
/// said.
pub open spec fn verdicts_at(accepted: Seq<Vec<bool>>, i: int) -> Seq<bool> {
    if i < accepted.len() {
        accepted[i]@
    } else {
        Seq::empty()
    }
}

/// Adds to each row the markers of the function calls, for the condition to
/// read.
pub fn mark_rows(rows: &Vec<JsonValue>, accepted: &Vec<Vec<bool>>) -> (r: Vec<JsonValue>)
    ensures
        json_views(r@) =~= Seq::new(
            rows@.len(),
            |i: int| marked_row(rows@[i]@, verdicts_at(accepted@, i)),
        ),
{
    let mut out: Vec<JsonValue> = Vec::new();
    let none: Vec<bool> = Vec::new();
    let mut i: usize = 0;
    while i < rows.len()
        invariant
            i <= rows@.len(),
            none@ =~= Seq::<bool>::empty(),
            out@.len() == i,
            forall|k: int|
                0 <= k < i ==> (#[trigger] out@[k])@ == marked_row(
                    rows@[k]@,
                    verdicts_at(accepted@, k),
                ),
        decreases rows@.len() - i,
    {
        let row = if i < accepted.len() {
            mark_row(&rows[i], &accepted[i])
        } else {
            mark_row(&rows[i], &none)
        };
        out.push(row);
        i = i + 1;
    }
    out
}

/// The result of a SELECT: the columns asked for, of the rows for which the
/// condition holds.
pub fn select_result(rows: &Vec<JsonValue>, holds: &Vec<bool>, columns: &Vec<String>) -> (r: Vec<
    (String, Vec<JsonValue>),
>)
    ensures
        list_views(r@) == select_columns(masked(json_views(rows@), holds@), text_views(columns@)),
{
    let ghost all = json_views(rows@);
    let mut kept: Vec<JsonValue> = Vec::new();
    let mut i: usize = 0;
    proof {
        assert(all.take(0) =~= Seq::<Json>::empty());
        assert(json_views(kept@) =~= Seq::<Json>::empty());
    }
    while i < rows.len()
        invariant
            i <= rows@.len(),
            all == json_views(rows@),
            json_views(kept@) == masked(all.take(i as int), holds@),
        decreases rows@.len() - i,
    {
        let ghost before = json_views(kept@);
        proof {
            assert(all.take(i as int + 1).drop_last() =~= all.take(i as int));
            assert(all.take(i as int + 1).last() == all[i as int]);
        }
        if i < holds.len() && holds[i] {
            let row = copy_json(&rows[i]);
            let ghost rv = row@;
            kept.push(row);
            proof {
                assert(json_views(kept@) =~= before.push(rv));
            }
        }
        i = i + 1;
    }
    proof {
        assert(all.take(i as int) =~= all);
    }
    sql_columns(&kept, columns)
}

/// All fields of the rows, row after row.
pub open spec fn all_cells(rows: Seq<Json>) -> Seq<(Seq<char>, Json)>
    decreases rows.len(),
{
    if rows.len() == 0 {
        Seq::empty()
    } else {
        all_cells(rows.drop_last()) + fields_of(rows.last())
    }
}

/// Names, each where it first comes.
pub open spec fn first_names(names: Seq<Seq<char>>) -> Seq<Seq<char>>
    decreases names.len(),
{
    if names.len() == 0 {
        Seq::empty()
    } else {
        let prev = first_names(names.drop_last());
        if prev.contains(names.last()) {
            prev
        } else {
            prev.push(names.last())
        }
    }
}

/// A result by rows as columns: first those that the result names, then the
/// others as they come, each with its values.
pub open spec fn result_columns(columns: Seq<Seq<char>>, rows: Seq<Json>) -> Seq<(Seq<char>, Seq<Json>)> {
    let cells = all_cells(rows);
    let names = names_with(first_names(columns), cells);
    Seq::new(names.len(), |i: int| (names[i], cells_named(cells, names[i])))
}

fn collect_cells(rows: &Vec<JsonValue>) -> (r: Vec<(String, JsonValue)>)
    ensures
        field_views(r@) == all_cells(json_views(rows@)),
{
    let ghost all = json_views(rows@);
    let mut out: Vec<(String, JsonValue)> = Vec::new();
    let mut i: usize = 0;
    proof {
        assert(all.take(0) =~= Seq::<Json>::empty());
        assert(field_views(out@) =~= Seq::<(Seq<char>, Json)>::empty());
    }
    while i < rows.len()
        invariant
            i <= rows@.len(),
            all == json_views(rows@),
            field_views(out@) == all_cells(all.take(i as int)),
        decreases rows@.len() - i,
    {
        let ghost start = field_views(out@);
        proof {
            assert(all.take(i as int + 1).drop_last() =~= all.take(i as int));
            assert(all.take(i as int + 1).last() == rows@[i as int]@);
            assert(start + Seq::<(Seq<char>, Json)>::empty() =~= start);
        }
        if let JsonValue::Object(fields) = &rows[i] {
            proof {
                lemma_object_view(*fields);
            }
            let ghost fv = field_views(fields@);
            let mut k: usize = 0;
            proof {
                assert(start + fv.take(0) =~= start);
            }
            while k < fields.len()
                invariant
                    k <= fields@.len(),
                    fv == field_views(fields@),
                    field_views(out@) == start + fv.take(k as int),
                decreases fields@.len() - k,
            {
                let ghost before = field_views(out@);
                let name = copy_text(&fields[k].0);
                let v = copy_json(&fields[k].1);
                let ghost f = (name@, v@);
                out.push((name, v));
                proof {
                    assert(field_views(out@) =~= before.push(f));
                    assert(start + fv.take(k as int + 1) =~= (start + fv.take(k as int)).push(f));
                }
                k = k + 1;
            }
            proof {
                assert(fv.take(k as int) =~= fv);
            }
        }
        i = i + 1;
    }
    proof {
        assert(all.take(i as int) =~= all);
    }
    out
}

/// Turns a result by rows into columns.
pub fn sql_result_columns(columns: &Vec<String>, rows: &Vec<JsonValue>) -> (r: Vec<(String, Vec<JsonValue>)>)
    ensures
        list_views(r@) == result_columns(text_views(columns@), json_views(rows@)),
{
    let ghost cv = text_views(columns@);
    let cells = collect_cells(rows);
    let ghost all = field_views(cells@);
    let mut names = Interner::new();
    let mut i: usize = 0;
    proof {
        assert(cv.take(0) =~= Seq::<Seq<char>>::empty());
    }
    while i < columns.len()
        invariant
            i <= columns@.len(),
            cv == text_views(columns@),
            names.wf(),
            names.keys() == first_names(cv.take(i as int)),
        decreases columns@.len() - i,
    {
        proof {
            assert(cv.take(i as int + 1).drop_last() =~= cv.take(i as int));
            assert(cv.take(i as int + 1).last() == columns@[i as int]@);
        }
        if names.get(&columns[i]).is_none() {
            names.add(&columns[i]);
        }
        i = i + 1;
    }
    proof {
        assert(cv.take(i as int) =~= cv);
        assert(all.take(0) =~= Seq::<(Seq<char>, Json)>::empty());
    }
    let mut k: usize = 0;
    while k < cells.len()
        invariant
            k <= cells@.len(),
            all == field_views(cells@),
            names.wf(),
            names.keys() == names_with(first_names(cv), all.take(k as int)),
        decreases cells@.len() - k,
    {
        proof {
            assert(all.take(k as int + 1).drop_last() =~= all.take(k as int));
            assert(all.take(k as int + 1).last() == all[k as int]);
        }
        if names.get(&cells[k].0).is_none() {
            names.add(&cells[k].0);
        }
        k = k + 1;
    }
    proof {
        assert(all.take(k as int) =~= all);
    }
    let ghost want = result_columns(cv, json_views(rows@));
    let mut out: Vec<(String, Vec<JsonValue>)> = Vec::new();
    let mut n: usize = 0;
    let total: usize = names.len();
    proof {
        assert(list_views(out@) =~= want.take(0));
    }
    while n < total
        invariant
            n <= total,
            total == names.keys().len(),
            all == field_views(cells@),
            all == all_cells(json_views(rows@)),
            names.keys() == names_with(first_names(cv), all),
            want == result_columns(cv, json_views(rows@)),
            list_views(out@) == want.take(n as int),
        decreases total - n,
    {
        let ghost before = list_views(out@);
        let name = copy_text(names.key(n));
        let values = values_named(&cells, &name);
        let ghost entry = (name@, json_views(values@));
        out.push((name, values));
        proof {
            assert(list_views(out@) =~= before.push(entry));
            assert(want[n as int] == entry);
            assert(want.take(n as int + 1) =~= want.take(n as int).push(entry));
        }
        n = n + 1;
    }
    proof {
        assert(want.take(n as int) =~= want);
    }
    out
}

/// What a MERGE does with a row.
#[derive(Debug, Clone, Copy, PartialEq, Eq, Structural)]
pub enum MergeAction {
    Update,
    Insert,
    Delete,
    Skip,
}

/// A statement that changes rows.
pub enum SqlStatement {
    Update { collection: String, sets: Vec<(String, JsonValue)>, condition: WhereExpr },
    Delete { collection: String, condition: WhereExpr },
    Insert { collection: String, columns: Vec<String>, rows: Vec<Vec<JsonValue>> },
    Merge {
        target: String,
        match_keys: Vec<(String, String)>,
        when_matched: MergeAction,
        when_not_matched: MergeAction,
    },
}

/// What is to be done for a statement.
#[derive(Debug, PartialEq)]
pub enum StatementPlan {
    Update { collection: String, updates: Vec<(String, JsonValue)>, condition: String },
    Delete { collection: String, condition: String },
    Insert { collection: String, columns: Vec<(String, Vec<JsonValue>)> },
    Merge { target: String, key_col: Option<String>, on_match: String, on_miss: String },
}

/// The fields that assignments make; of two to one column the later counts.
pub open spec fn assigned(sets: Seq<(Seq<char>, Json)>) -> Seq<(Seq<char>, Json)>
    decreases sets.len(),
{
    if sets.len() == 0 {
        Seq::empty()
    } else {
        put(assigned(sets.drop_last()), sets.last().0, sets.last().1)
    }
}

/// The word for what to do with a row that matches; what cannot be done with one
/// is an update.
pub open spec fn match_word(a: MergeAction) -> Seq<char> {
    match a {
        MergeAction::Delete => "delete"@,
        MergeAction::Skip => "skip"@,
        _ => "update"@,
    }
}

/// The word for what to do with a row without a match; what cannot be done with
/// one is an insert.
pub open spec fn miss_word(a: MergeAction) -> Seq<char> {
    match a {
        MergeAction::Skip => "skip"@,
        _ => "insert"@,
    }
}

/// A plan does what a statement says.
pub open spec fn is_plan(p: StatementPlan, s: SqlStatement) -> bool {
    match (s, p) {
        (
            SqlStatement::Update { collection, sets, condition },
            StatementPlan::Update { collection: c, updates, condition: text },
        ) => c@ == collection@ && field_views(updates@) == assigned(field_views(sets@)) && text@ == sql_of(
            condition,
        ),
        (
            SqlStatement::Delete { collection, condition },
            StatementPlan::Delete { collection: c, condition: text },
        ) => c@ == collection@ && text@ == sql_of(condition),
        (
            SqlStatement::Insert { collection, columns, rows },
            StatementPlan::Insert { collection: c, columns: lists },
        ) => c@ == collection@ && list_views(lists@) == insert_columns_of(text_views(columns@), rows@),
        (
            SqlStatement::Merge { target, match_keys, when_matched, when_not_matched },
            StatementPlan::Merge { target: t, key_col, on_match, on_miss },
        ) => {
            &&& t@ == target@
            &&& match key_col {
                Some(k) => match_keys@.len() > 0 && k@ == match_keys@[0].0@,
                None => match_keys@.len() == 0,
            }
            &&& on_match@ == match_word(when_matched)
            &&& on_miss@ == miss_word(when_not_matched)
        },
        _ => false,
    }
}

fn assign(sets: &Vec<(String, JsonValue)>) -> (r: Vec<(String, JsonValue)>)
    ensures
        field_views(r@) == assigned(field_views(sets@)),
{
    let ghost all = field_views(sets@);
    let mut out: Vec<(String, JsonValue)> = Vec::new();
    let mut i: usize = 0;
    proof {
        assert(all.take(0) =~= Seq::<(Seq<char>, Json)>::empty());
        assert(field_views(out@) =~= Seq::<(Seq<char>, Json)>::empty());
    }
    while i < sets.len()
        invariant
            i <= sets@.len(),
            all == field_views(sets@),
            field_views(out@) == assigned(all.take(i as int)),
        decreases sets@.len() - i,
    {
        proof {
            assert(all.take(i as int + 1).drop_last() =~= all.take(i as int));
            assert(all.take(i as int + 1).last() == all[i as int]);
        }
        let v = copy_json(&sets[i].1);
        put_field(&mut out, &sets[i].0, v);
        i = i + 1;
    }
    proof {
        assert(all.take(i as int) =~= all);
    }
    out
}

/// Plans a statement.
pub fn plan_statement(stmt: &SqlStatement) -> (r: StatementPlan)
    ensures
        is_plan(r, *stmt),
{
    match stmt {
        SqlStatement::Update { collection, sets, condition } => StatementPlan::Update {
            collection: copy_text(collection),
            updates: assign(sets),
            condition: where_expr_to_sql(condition),
        },
        SqlStatement::Delete { collection, condition } => StatementPlan::Delete {
            collection: copy_text(collection),
            condition: where_expr_to_sql(condition),
        },
        SqlStatement::Insert { collection, columns, rows } => StatementPlan::Insert {
            collection: copy_text(collection),
            columns: insert_columns(columns, rows),
        },
        SqlStatement::Merge { target, match_keys, when_matched, when_not_matched } => {
            let key_col: Option<String> = if match_keys.len() > 0 {
                Some(copy_text(&match_keys[0].0))
            } else {
                None
            };
            let on_match: &str = match when_matched {
                MergeAction::Delete => "delete",
                MergeAction::Skip => "skip",
                _ => "update",
            };
            let on_miss: &str = match when_not_matched {
                MergeAction::Skip => "skip",
                _ => "insert",
            };
            StatementPlan::Merge {
                target: copy_text(target),
                key_col,
                on_match: copy_text(on_match),
                on_miss: copy_text(on_miss),
            }
        },
    }
}

} // verus!
