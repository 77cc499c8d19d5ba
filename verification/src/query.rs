//! Reading and changing rows: selection, columns, joins, batches.

use vstd::prelude::*;
use vstd::string::*;
use crate::intern::Interner;
use crate::json::{
    copy_json, field_views, find_key, i64_of, json_views, key_at, lemma_object_view, member, put,
    put_field, Json, JsonValue,
};
use crate::merge::{composite_key, fields_of, make_key, source_cols, target_cols};
use crate::predicate::{filter_op_i64, int_holds, ints_marked, op_of, parse_op, value_order, cmp_values, Op, Order};
use crate::text::{chars_of, copy_text, push_chars, same_text, text_of, text_views};
use crate::where_clause::{predicate_view, predicate_views, PredicateView};

verus! {

/// The columns that are kept for the store's own use.
pub open spec fn is_hidden(name: Seq<char>) -> bool {
    name == "_rowid"@ || name == "_version"@ || name == "_deleted"@ || name == "_tenant"@
}

pub fn hidden(name: &str) -> (r: bool)
    ensures
        r == is_hidden(name@),
{
    same_text(name, "_rowid") || same_text(name, "_version") || same_text(name, "_deleted") || same_text(
        name,
        "_tenant",
    )
}

/// Every row has a whole number in the column.
pub open spec fn all_ints(rows: Seq<Json>, col: Seq<char>) -> bool {
    forall|i: int|
        0 <= i < rows.len() ==> member(#[trigger] rows[i], col) is Some && i64_of(
            member(rows[i], col)->0,
        ) is Some
}

pub open spec fn ints_in(rows: Seq<Json>, col: Seq<char>) -> Seq<i64> {
    Seq::new(rows.len(), |i: int| i64_of(member(rows[i], col)->0)->0)
}

/// Whether a row passes a predicate. Where the value and the whole column are
/// whole numbers, these are compared; else equality is as `equal` says and
/// order is that of values. An unknown operator lets every row pass.
pub open spec fn passes(rows: Seq<Json>, p: PredicateView, equal: bool, i: int) -> bool {
    let op = op_of(p.op);
    if op == Op::Unknown {
        true
    } else if i64_of(p.value) is Some && all_ints(rows, p.col) {
        int_holds(op, ints_in(rows, p.col)[i] as int, i64_of(p.value)->0 as int)
    } else {
        let cell = member(rows[i], p.col);
        match op {
            Op::Eq => equal,
            Op::Ne => !equal,
            Op::Gt => value_order(cell, p.value) == Order::Greater,
            Op::Ge => value_order(cell, p.value) != Order::Less,
            Op::Lt => value_order(cell, p.value) == Order::Less,
            _ => value_order(cell, p.value) != Order::Greater,
        }
    }
}

/// Whether the equality table says that predicate `p` holds of row `i`.
pub open spec fn table_says(table: Seq<Vec<bool>>, p: int, i: int) -> bool {
    p < table.len() && i < table[p]@.len() && table[p]@[i]
}

/// Which rows pass the first `n` predicates.
pub open spec fn passing(
    rows: Seq<Json>,
    preds: Seq<PredicateView>,
    equal: Seq<Vec<bool>>,
    n: nat,
) -> Seq<bool>
    decreases n,
{
    if n == 0 {
        Seq::new(rows.len(), |i: int| true)
    } else {
        let p = n - 1;
        let prev = passing(rows, preds, equal, p as nat);
        Seq::new(
            rows.len(),
            |i: int| prev[i] && passes(rows, preds[p], table_says(equal, p, i), i),
        )
    }
}

fn int_column(rows: &[JsonValue], col: &str) -> (r: Option<Vec<i64>>)
    ensures
        match r {
            Some(v) => all_ints(json_views(rows@), col@) && v@ == ints_in(json_views(rows@), col@),
            None => !all_ints(json_views(rows@), col@),
        },
{
    let ghost all = json_views(rows@);
    let mut out: Vec<i64> = Vec::new();
    let mut i: usize = 0;
    while i < rows.len()
        invariant
            i <= rows@.len(),
            all == json_views(rows@),
            forall|k: int|
                0 <= k < i ==> member(#[trigger] all[k], col@) is Some && i64_of(
                    member(all[k], col@)->0,
                ) is Some,
            out@ == ints_in(all, col@).take(i as int),
        decreases rows@.len() - i,
    {
        proof {
            assert(all[i as int] == rows@[i as int]@);
        }
        match rows[i].get(col) {
            Some(v) => match v.as_i64() {
                Some(x) => {
                    out.push(x);
                    proof {
                        let w = ints_in(all, col@);
                        assert(w.take(i as int + 1) =~= w.take(i as int).push(w[i as int]));
                    }
                },
                None => {
                    proof {
                        assert(!(member(all[i as int], col@) is Some && i64_of(
                            member(all[i as int], col@)->0,
                        ) is Some));
                    }
                    return None;
                },
            },
            None => {
                proof {
                    assert(!(member(all[i as int], col@) is Some && i64_of(
                        member(all[i as int], col@)->0,
                    ) is Some));
                }
                return None;
            },
        }
        i = i + 1;
    }
    proof {
        assert(ints_in(all, col@).take(i as int) =~= ints_in(all, col@));
    }
    Some(out)
}

fn cell_passes(row: &JsonValue, col: &str, op: Op, value: &JsonValue, equal: bool) -> (r: bool)
    requires
        op != Op::Unknown,
    ensures
        r == (match op {
            Op::Eq => equal,
            Op::Ne => !equal,
            Op::Gt => value_order(member(row@, col@), value@) == Order::Greater,
            Op::Ge => value_order(member(row@, col@), value@) != Order::Less,
            Op::Lt => value_order(member(row@, col@), value@) == Order::Less,
            _ => value_order(member(row@, col@), value@) != Order::Greater,
        }),
{
    let order = cmp_values(row.get(col), value);
    match op {
        Op::Eq => equal,
        Op::Ne => !equal,
        Op::Gt => order == Order::Greater,
        Op::Ge => order != Order::Less,
        Op::Lt => order == Order::Less,
        _ => order != Order::Greater,
    }
}

/// Which rows pass all predicates. `equal` tells for each predicate and row
/// whether the cell equals the predicate's value.
pub fn filter_rows(
    rows: &[JsonValue],
    predicates: &Vec<(String, String, JsonValue)>,
    equal: &Vec<Vec<bool>>,
) -> (r: Vec<bool>)
    ensures
        r@ == passing(
            json_views(rows@),
            predicate_views(predicates@),
            equal@,
            predicates@.len(),
        ),
{
    let ghost all = json_views(rows@);
    let ghost preds = predicate_views(predicates@);
    let mut mask: Vec<bool> = Vec::new();
    while mask.len() < rows.len()
        invariant
            mask@.len() <= rows@.len(),
            forall|k: int| 0 <= k < mask@.len() ==> #[trigger] mask@[k],
        decreases rows@.len() - mask@.len(),
    {
        mask.push(true);
    }
    let mut p: usize = 0;
    proof {
        assert(mask@ =~= passing(all, preds, equal@, 0));
    }
    while p < predicates.len()
        invariant
            p <= predicates@.len(),
            all == json_views(rows@),
            preds == predicate_views(predicates@),
            mask@.len() == rows@.len(),
            mask@ == passing(all, preds, equal@, p as nat),
        decreases predicates@.len() - p,
    {
        let (col, op_text, value) = (&predicates[p].0, &predicates[p].1, &predicates[p].2);
        let op = parse_op(op_text);
        let ghost prev = mask@;
        let ghost pv = preds[p as int];
        let ghost want = passing(all, preds, equal@, (p + 1) as nat);
        proof {
            assert(pv == predicate_view(predicates@[p as int]));
        }
        if op != Op::Unknown {
            let ints: Option<Vec<i64>> = match value.as_i64() {
                Some(_) => int_column(rows, col),
                None => None,
            };
            let column_mask: Option<Vec<bool>> = match (&ints, value.as_i64()) {
                (Some(v), Some(target)) => Some(filter_op_i64(v, op, target)),
                _ => None,
            };
            let mut i: usize = 0;
            while i < rows.len()
                invariant
                    i <= rows@.len(),
                    p < predicates@.len(),
                    all == json_views(rows@),
                    preds == predicate_views(predicates@),
                    pv == preds[p as int],
                    pv == predicate_view(predicates@[p as int]),
                    col@ == pv.col,
                    value@ == pv.value,
                    op == op_of(pv.op),
                    op != Op::Unknown,
                    prev == passing(all, preds, equal@, p as nat),
                    want == passing(all, preds, equal@, (p + 1) as nat),
                    mask@.len() == rows@.len(),
                    column_mask matches Some(m) ==> i64_of(pv.value) is Some && all_ints(all, pv.col)
                        && m@ == ints_marked(op, ints_in(all, pv.col), i64_of(pv.value)->0),
                    column_mask is None ==> !(i64_of(pv.value) is Some && all_ints(all, pv.col)),
                    forall|k: int| 0 <= k < i ==> #[trigger] mask@[k] == want[k],
                    forall|k: int| i <= k < rows@.len() ==> #[trigger] mask@[k] == prev[k],
                decreases rows@.len() - i,
            {
                let eq: bool = p < equal.len() && i < equal[p].len() && equal[p][i];
                let ok: bool = match &column_mask {
                    Some(m) => m[i],
                    None => cell_passes(&rows[i], col, op, value, eq),
                };
                proof {
                    assert(all[i as int] == rows@[i as int]@);
                    assert(ok == passes(all, pv, table_says(equal@, p as int, i as int), i as int));
                }
                mask[i] = mask[i] && ok;
                i = i + 1;
            }
        }
        proof {
            assert(mask@ =~= want);
        }
        p = p + 1;
    }
    mask
}

/// Whether a projection asks for a column; without one all are wanted.
pub open spec fn asked_for(projection: Option<Seq<Seq<char>>>, name: Seq<char>) -> bool {
    match projection {
        None => true,
        Some(names) => names.contains(name),
    }
}

/// The fields that a projection asks for.
pub open spec fn asked_fields(
    fields: Seq<(Seq<char>, Json)>,
    projection: Option<Seq<Seq<char>>>,
) -> Seq<(Seq<char>, Json)>
    decreases fields.len(),
{
    if fields.len() == 0 {
        Seq::empty()
    } else {
        let prev = asked_fields(fields.drop_last(), projection);
        if asked_for(projection, fields.last().0) {
            prev.push(fields.last())
        } else {
            prev
        }
    }
}

/// The rows, as far as the projection asks for fields of them. A row with none
/// is not there.
pub open spec fn asked_rows(rows: Seq<Json>, projection: Option<Seq<Seq<char>>>) -> Seq<Json>
    decreases rows.len(),
{
    if rows.len() == 0 {
        Seq::empty()
    } else {
        let prev = asked_rows(rows.drop_last(), projection);
        let fields = asked_fields(fields_of(rows.last()), projection);
        if fields.len() > 0 {
            prev.push(Json::Object(fields))
        } else {
            prev
        }
    }
}

/// A column of cells; a row without a cell has none.
pub open spec fn column_cells(rows: Seq<Json>, name: Seq<char>) -> Seq<Option<Json>> {
    Seq::new(rows.len(), |i: int| member(rows[i], name))
}

/// The names to show: without a projection the store's own columns are left out.
pub open spec fn shown_names(names: Seq<Seq<char>>, explicit: bool) -> Seq<Seq<char>>
    decreases names.len(),
{
    if names.len() == 0 {
        Seq::empty()
    } else {
        let prev = shown_names(names.drop_last(), explicit);
        if !explicit && is_hidden(names.last()) {
            prev
        } else {
            prev.push(names.last())
        }
    }
}

/// The rows as columns of one length: each column has a cell for every row, or
/// the mark that it has none.
pub open spec fn columns_of_rows(rows: Seq<Json>, projection: Option<Seq<Seq<char>>>) -> Seq<
    (Seq<char>, Seq<Option<Json>>),
> {
    let asked = asked_rows(rows, projection);
    let names = shown_names(crate::infer::names_of(asked), projection is Some);
    Seq::new(names.len(), |i: int| (names[i], column_cells(asked, names[i])))
}

pub open spec fn cell_views(v: Seq<Option<JsonValue>>) -> Seq<Option<Json>> {
    Seq::new(
        v.len(),
        |i: int|
            match v[i] {
                Some(x) => Some(x@),
                None => None,
            },
    )
}

pub open spec fn cells_views(v: Seq<(String, Vec<Option<JsonValue>>)>) -> Seq<
    (Seq<char>, Seq<Option<Json>>),
> {
    Seq::new(v.len(), |i: int| (v[i].0@, cell_views(v[i].1@)))
}

pub open spec fn opt_texts(v: Option<&Vec<String>>) -> Option<Seq<Seq<char>>> {
    match v {
        Some(x) => Some(text_views(x@)),
        None => None,
    }
}

fn is_asked_for(projection: Option<&Vec<String>>, name: &str) -> (r: bool)
    ensures
        r == asked_for(opt_texts(projection), name@),
{
    match projection {
        None => true,
        Some(names) => holds_text(names, name),
    }
}

/// Whether a list holds a text.
pub fn holds_text(names: &Vec<String>, name: &str) -> (r: bool)
    ensures
        r == text_views(names@).contains(name@),
{
    let ghost all = text_views(names@);
    let mut i: usize = 0;
    while i < names.len()
        invariant
            i <= names@.len(),
            all == text_views(names@),
            forall|k: int| 0 <= k < i ==> #[trigger] all[k] != name@,
        decreases names@.len() - i,
    {
        if same_text(&names[i], name) {
            proof {
                assert(all[i as int] == name@);
            }
            return true;
        }
        proof {
            assert(all[i as int] != name@);
        }
        i = i + 1;
    }
    false
}

fn ask_row(row: &JsonValue, projection: Option<&Vec<String>>) -> (r: Vec<(String, JsonValue)>)
    ensures
        field_views(r@) == asked_fields(fields_of(row@), opt_texts(projection)),
{
    let mut out: Vec<(String, JsonValue)> = Vec::new();
    proof {
        assert(field_views(out@) =~= Seq::<(Seq<char>, Json)>::empty());
    }
    if let JsonValue::Object(fields) = row {
        proof {
            lemma_object_view(*fields);
        }
        let ghost all = field_views(fields@);
        let mut i: usize = 0;
        proof {
            assert(all.take(0) =~= Seq::<(Seq<char>, Json)>::empty());
        }
        while i < fields.len()
            invariant
                i <= fields@.len(),
                all == field_views(fields@),
                field_views(out@) == asked_fields(all.take(i as int), opt_texts(projection)),
            decreases fields@.len() - i,
        {
            proof {
                assert(all.take(i as int + 1).drop_last() =~= all.take(i as int));
                assert(all.take(i as int + 1).last() == all[i as int]);
            }
            if is_asked_for(projection, &fields[i].0) {
                let ghost before = field_views(out@);
                out.push((copy_text(&fields[i].0), copy_json(&fields[i].1)));
                proof {
                    assert(field_views(out@) =~= before.push(all[i as int]));
                }
            }
            i = i + 1;
        }
        proof {
            assert(all.take(i as int) =~= all);
        }
    }
    out
}

fn ask_rows(rows: &[JsonValue], projection: Option<&Vec<String>>) -> (r: Vec<JsonValue>)
    ensures
        json_views(r@) == asked_rows(json_views(rows@), opt_texts(projection)),
{
    let ghost all = json_views(rows@);
    let mut out: Vec<JsonValue> = Vec::new();
    let mut i: usize = 0;
    proof {
        assert(all.take(0) =~= Seq::<Json>::empty());
        assert(json_views(out@) =~= Seq::<Json>::empty());
    }
    while i < rows.len()
        invariant
            i <= rows@.len(),
            all == json_views(rows@),
            json_views(out@) == asked_rows(all.take(i as int), opt_texts(projection)),
        decreases rows@.len() - i,
    {
        proof {
            assert(all.take(i as int + 1).drop_last() =~= all.take(i as int));
            assert(all.take(i as int + 1).last() == rows@[i as int]@);
        }
        let fields = ask_row(&rows[i], projection);
        if fields.len() > 0 {
            let ghost before = json_views(out@);
            let ghost fv = field_views(fields@);
            proof {
                lemma_object_view(fields);
            }
            out.push(JsonValue::Object(fields));
            proof {
                assert(json_views(out@) =~= before.push(Json::Object(fv)));
            }
        }
        i = i + 1;
    }
    proof {
        assert(all.take(i as int) =~= all);
    }
    out
}

fn cells_of(rows: &Vec<JsonValue>, name: &str) -> (r: Vec<Option<JsonValue>>)
    ensures
        cell_views(r@) == column_cells(json_views(rows@), name@),
{
    let ghost want = column_cells(json_views(rows@), name@);
    let mut out: Vec<Option<JsonValue>> = Vec::new();
    let mut i: usize = 0;
    proof {
        assert(cell_views(out@) =~= want.take(0));
    }
    while i < rows.len()
        invariant
            i <= rows@.len(),
            want == column_cells(json_views(rows@), name@),
            cell_views(out@) == want.take(i as int),
        decreases rows@.len() - i,
    {
        let ghost before = cell_views(out@);
        let c = match rows[i].get(name) {
            Some(v) => Some(copy_json(v)),
            None => None,
        };
        out.push(c);
        proof {
            assert(cell_views(out@) =~= before.push(want[i as int]));
            assert(want.take(i as int + 1) =~= want.take(i as int).push(want[i as int]));
        }
        i = i + 1;
    }
    proof {
        assert(want.take(i as int) =~= want);
    }
    out
}

/// Turns rows into columns of one length.
pub fn rows_to_columns(rows: &[JsonValue], projection: Option<&Vec<String>>) -> (r: Vec<
    (String, Vec<Option<JsonValue>>),
>)
    ensures
        cells_views(r@) == columns_of_rows(json_views(rows@), opt_texts(projection)),
{
    let asked = ask_rows(rows, projection);
    let names = crate::infer::collect_names(&asked);
    let ghost av = json_views(asked@);
    let ghost all = crate::infer::names_of(av);
    let ghost explicit = opt_texts(projection) is Some;
    let mut out: Vec<(String, Vec<Option<JsonValue>>)> = Vec::new();
    let mut i: usize = 0;
    proof {
        assert(all.take(0) =~= Seq::<Seq<char>>::empty());
        assert(cells_views(out@) =~= Seq::<(Seq<char>, Seq<Option<Json>>)>::empty());
    }
    while i < names.len()
        invariant
            i <= all.len(),
            names.keys() == all,
            av == json_views(asked@),
            explicit == (opt_texts(projection) is Some),
            cells_views(out@) =~= Seq::new(
                shown_names(all.take(i as int), explicit).len(),
                |k: int|
                    (
                        shown_names(all.take(i as int), explicit)[k],
                        column_cells(av, shown_names(all.take(i as int), explicit)[k]),
                    ),
            ),
        decreases all.len() - i,
    {
        proof {
            assert(all.take(i as int + 1).drop_last() =~= all.take(i as int));
            assert(all.take(i as int + 1).last() == all[i as int]);
        }
        if !(projection.is_none() && hidden(names.key(i))) {
            let ghost before = cells_views(out@);
            let cells = cells_of(&asked, names.key(i));
            let name = copy_text(names.key(i));
            let ghost c = (name@, cell_views(cells@));
            out.push((name, cells));
            proof {
                assert(cells_views(out@) =~= before.push(c));
            }
        }
        i = i + 1;
    }
    proof {
        assert(all.take(i as int) =~= all);
    }
    out
}

/// All columns that come out have the same length.
pub proof fn columns_have_one_length(
    rows: Seq<Json>,
    projection: Option<Seq<Seq<char>>>,
    i: int,
    j: int,
)
    requires
        0 <= i < columns_of_rows(rows, projection).len(),
        0 <= j < columns_of_rows(rows, projection).len(),
    ensures
        columns_of_rows(rows, projection)[i].1.len() == columns_of_rows(rows, projection)[j].1.len(),
{
}

/// Unless they were asked for, the store's own columns do not come out.
pub proof fn own_columns_are_hidden(rows: Seq<Json>, i: int)
    requires
        0 <= i < columns_of_rows(rows, None).len(),
    ensures
        !is_hidden(columns_of_rows(rows, None)[i].0),
{
    lemma_shown_names(crate::infer::names_of(asked_rows(rows, None)));
}

proof fn lemma_shown_names(names: Seq<Seq<char>>)
    ensures
        forall|i: int|
            0 <= i < shown_names(names, false).len() ==> !is_hidden(
                #[trigger] shown_names(names, false)[i],
            ),
    decreases names.len(),
{
    if names.len() > 0 {
        lemma_shown_names(names.drop_last());
        let before = shown_names(names.drop_last(), false);
        let after = shown_names(names, false);
        assert forall|i: int| 0 <= i < after.len() implies !is_hidden(#[trigger] after[i]) by {
            if i < before.len() {
                assert(after[i] == before[i]);
            }
        }
    }
}

/// The fields that are not the store's own.
pub open spec fn open_fields(fields: Seq<(Seq<char>, Json)>) -> Seq<(Seq<char>, Json)>
    decreases fields.len(),
{
    if fields.len() == 0 {
        Seq::empty()
    } else {
        let prev = open_fields(fields.drop_last());
        if is_hidden(fields.last().0) {
            prev
        } else {
            prev.push(fields.last())
        }
    }
}

/// The row without the store's own columns. What is no object stays as it is.
pub open spec fn open_row(row: Json) -> Json {
    match row {
        Json::Object(fields) => Json::Object(open_fields(fields)),
        _ => row,
    }
}

fn strip_row(row: &JsonValue) -> (r: JsonValue)
    ensures
        r@ == open_row(row@),
{
    match row {
        JsonValue::Object(fields) => {
            proof {
                lemma_object_view(*fields);
            }
            let ghost all = field_views(fields@);
            let mut out: Vec<(String, JsonValue)> = Vec::new();
            let mut i: usize = 0;
            proof {
                assert(all.take(0) =~= Seq::<(Seq<char>, Json)>::empty());
                assert(field_views(out@) =~= Seq::<(Seq<char>, Json)>::empty());
            }
            while i < fields.len()
                invariant
                    i <= fields@.len(),
                    all == field_views(fields@),
                    field_views(out@) == open_fields(all.take(i as int)),
                decreases fields@.len() - i,
            {
                proof {
                    assert(all.take(i as int + 1).drop_last() =~= all.take(i as int));
                    assert(all.take(i as int + 1).last() == all[i as int]);
                }
                if !hidden(&fields[i].0) {
                    let ghost before = field_views(out@);
                    out.push((copy_text(&fields[i].0), copy_json(&fields[i].1)));
                    proof {
                        assert(field_views(out@) =~= before.push(all[i as int]));
                    }
                }
                i = i + 1;
            }
            proof {
                assert(all.take(i as int) =~= all);
                lemma_object_view(out);
            }
            JsonValue::Object(out)
        },
        _ => copy_json(row),
    }
}

pub open spec fn open_rows(rows: Seq<Json>) -> Seq<Json> {
    Seq::new(rows.len(), |i: int| open_row(rows[i]))
}

/// The rows in batches of one size; the last may be smaller.
pub open spec fn batches_of(rows: Seq<Json>, size: nat) -> Seq<Seq<Json>>
    decreases rows.len(),
{
    if size == 0 || rows.len() == 0 {
        Seq::empty()
    } else if rows.len() <= size {
        seq![rows]
    } else {
        seq![rows.take(size as int)] + batches_of(rows.skip(size as int), size)
    }
}

pub open spec fn batch_views(v: Seq<Vec<JsonValue>>) -> Seq<Seq<Json>> {
    Seq::new(v.len(), |i: int| json_views(v[i]@))
}

/// Cuts the rows, without the store's own columns, into batches. A batch size
/// of zero is refused.
pub fn read_rows_stream(rows: &[JsonValue], batch_size: usize) -> (r: Option<Vec<Vec<JsonValue>>>)
    ensures
        r is None <==> batch_size == 0,
        r matches Some(b) ==> batch_views(b@) == batches_of(
            open_rows(json_views(rows@)),
            batch_size as nat,
        ),
{
    if batch_size == 0 {
        return None;
    }
    let ghost all = open_rows(json_views(rows@));
    let mut out: Vec<Vec<JsonValue>> = Vec::new();
    let mut start: usize = 0;
    proof {
        assert(all.skip(0) =~= all);
        assert(batch_views(out@) + batches_of(all, batch_size as nat) =~= batches_of(
            all,
            batch_size as nat,
        ));
    }
    while start < rows.len()
        invariant
            start <= rows@.len(),
            batch_size > 0,
            all == open_rows(json_views(rows@)),
            batches_of(all, batch_size as nat) == batch_views(out@) + batches_of(
                all.skip(start as int),
                batch_size as nat,
            ),
        decreases rows@.len() - start,
    {
        let left: usize = rows.len() - start;
        let n: usize = if left <= batch_size {
            left
        } else {
            batch_size
        };
        let ghost tail = all.skip(start as int);
        let mut chunk: Vec<JsonValue> = Vec::new();
        proof {
            assert(json_views(chunk@) =~= tail.take(0));
        }
        while chunk.len() < n
            invariant
                chunk@.len() <= n,
                start + n <= rows.len(),
                all == open_rows(json_views(rows@)),
                tail == all.skip(start as int),
                json_views(chunk@) == tail.take(chunk@.len() as int),
            decreases n - chunk@.len(),
        {
            let ghost before = json_views(chunk@);
            let ghost k = chunk@.len() as int;
            let row = strip_row(&rows[start + chunk.len()]);
            let ghost rv = row@;
            chunk.push(row);
            proof {
                assert(rv == tail[k]);
                assert(json_views(chunk@) =~= before.push(rv));
                assert(tail.take(k + 1) =~= tail.take(k).push(tail[k]));
            }
        }
        let ghost before = batch_views(out@);
        let ghost cv = json_views(chunk@);
        out.push(chunk);
        proof {
            assert(batch_views(out@) =~= before.push(cv));
            if left <= batch_size {
                assert(cv =~= tail);
                assert(all.skip(start + n) =~= Seq::<Json>::empty());
                assert(before + seq![tail] =~= before.push(tail) + batches_of(
                    Seq::<Json>::empty(),
                    batch_size as nat,
                ));
            } else {
                assert(tail.skip(n as int) =~= all.skip(start + n));
                let rest = batches_of(all.skip(start + n), batch_size as nat);
                assert(before + (seq![cv] + rest) =~= before.push(cv) + rest);
            }
        }
        start = start + n;
    }
    proof {
        assert(all.skip(start as int) =~= Seq::<Json>::empty());
        assert(batch_views(out@) + Seq::<Seq<Json>>::empty() =~= batch_views(out@));
    }
    Some(out)
}

/// The batches one after another are the rows.
pub proof fn batches_lose_nothing(rows: Seq<Json>, size: nat)
    requires
        size > 0,
    ensures
        batches_of(rows, size).flatten() == rows,
        forall|i: int|
            0 <= i < batches_of(rows, size).len() ==> 0 < (#[trigger] batches_of(rows, size)[i]).len()
                <= size,
    decreases rows.len(),
{
    let b = batches_of(rows, size);
    if rows.len() == 0 {
        assert(b.flatten() =~= rows);
    } else if rows.len() <= size {
        assert(b.drop_first() =~= Seq::<Seq<Json>>::empty());
        assert(b.drop_first().flatten() =~= Seq::<Json>::empty());
        assert(b.flatten() =~= rows);
    } else {
        let rest = rows.skip(size as int);
        batches_lose_nothing(rest, size);
        assert(b.drop_first() =~= batches_of(rest, size));
        assert(b.flatten() =~= rows.take(size as int) + rest);
        assert(rows.take(size as int) + rest =~= rows);
        assert forall|i: int| 0 <= i < b.len() implies 0 < (#[trigger] b[i]).len() <= size by {
            if i > 0 {
                assert(b[i] == batches_of(rest, size)[i - 1]);
            }
        }
    }
}

/// The fields under an alias.
pub open spec fn aliased_fields(fields: Seq<(Seq<char>, Json)>, alias: Seq<char>) -> Seq<
    (Seq<char>, Json),
> {
    Seq::new(fields.len(), |i: int| (alias.push('.') + fields[i].0, fields[i].1))
}

pub open spec fn aliased_row(row: Json, alias: Seq<char>) -> Json {
    match row {
        Json::Object(fields) => Json::Object(aliased_fields(fields, alias)),
        _ => row,
    }
}

/// Puts a table's alias before the column names of a row.
pub fn alias_row(row: &JsonValue, alias: &str) -> (r: JsonValue)
    ensures
        r@ == aliased_row(row@, alias@),
{
    match row {
        JsonValue::Object(fields) => {
            proof {
                lemma_object_view(*fields);
            }
            let ghost want = aliased_fields(field_views(fields@), alias@);
            let mut head = chars_of(alias);
            head.push('.');
            let mut out: Vec<(String, JsonValue)> = Vec::new();
            let mut i: usize = 0;
            proof {
                assert(field_views(out@) =~= want.take(0));
            }
            while i < fields.len()
                invariant
                    i <= fields@.len(),
                    head@ == alias@.push('.'),
                    want == aliased_fields(field_views(fields@), alias@),
                    field_views(out@) == want.take(i as int),
                decreases fields@.len() - i,
            {
                let ghost before = field_views(out@);
                let mut name: Vec<char> = Vec::new();
                push_chars(&mut name, &head);
                let k = chars_of(&fields[i].0);
                push_chars(&mut name, &k);
                proof {
                    assert(name@ =~= head@ + k@);
                }
                let text = text_of(&name);
                let v = copy_json(&fields[i].1);
                let ghost f = (text@, v@);
                out.push((text, v));
                proof {
                    assert(field_views(out@) =~= before.push(f));
                    assert(want.take(i as int + 1) =~= want.take(i as int).push(want[i as int]));
                }
                i = i + 1;
            }
            proof {
                assert(want.take(i as int) =~= want);
                lemma_object_view(out);
            }
            JsonValue::Object(out)
        },
        _ => copy_json(row),
    }
}

/// The fields with those of another row set over them.
pub open spec fn overlaid(base: Seq<(Seq<char>, Json)>, over: Seq<(Seq<char>, Json)>) -> Seq<
    (Seq<char>, Json),
>
    decreases over.len(),
{
    if over.len() == 0 {
        base
    } else {
        put(overlaid(base, over.drop_last()), over.last().0, over.last().1)
    }
}

/// A left and a right row in one: right columns win.
pub open spec fn joined_row(left: Json, right: Json) -> Json {
    match (left, right) {
        (Json::Object(l), Json::Object(r)) => Json::Object(overlaid(l, r)),
        _ => left,
    }
}

/// The fields with nulls for the keys that they do not have.
pub open spec fn with_nulls(base: Seq<(Seq<char>, Json)>, keys: Seq<(Seq<char>, Json)>) -> Seq<
    (Seq<char>, Json),
>
    decreases keys.len(),
{
    if keys.len() == 0 {
        base
    } else {
        let prev = with_nulls(base, keys.drop_last());
        if key_at(prev, keys.last().0) is Some {
            prev
        } else {
            put(prev, keys.last().0, Json::Null)
        }
    }
}

/// A left row without a match: nulls for the columns of the first right row.
pub open spec fn unmatched_row(left: Json, right_rows: Seq<Json>) -> Json {
    if right_rows.len() == 0 {
        left
    } else {
        match (left, right_rows[0]) {
            (Json::Object(l), Json::Object(r)) => Json::Object(with_nulls(l, r)),
            _ => left,
        }
    }
}

/// A left row with each of the first `n` right rows that have its key.
pub open spec fn matches_joined(
    left: Json,
    key: Seq<char>,
    right_rows: Seq<Json>,
    cols: Seq<Seq<char>>,
    n: nat,
) -> Seq<Json>
    decreases n,
{
    if n == 0 {
        Seq::empty()
    } else {
        let j = n - 1;
        let prev = matches_joined(left, key, right_rows, cols, j as nat);
        if composite_key(right_rows[j], cols) == key {
            prev.push(joined_row(left, right_rows[j]))
        } else {
            prev
        }
    }
}

/// What a left row gives: its matches, or in a left join itself without one.
pub open spec fn join_of(
    left: Json,
    right_rows: Seq<Json>,
    on: Seq<(String, String)>,
    left_join: bool,
) -> Seq<Json> {
    let key = composite_key(left, target_cols(on));
    let found = matches_joined(left, key, right_rows, source_cols(on), right_rows.len());
    if found.len() > 0 {
        found
    } else if left_join {
        seq![unmatched_row(left, right_rows)]
    } else {
        Seq::empty()
    }
}

/// The join of the first `n` left rows.
pub open spec fn join_rows(
    left_rows: Seq<Json>,
    right_rows: Seq<Json>,
    on: Seq<(String, String)>,
    left_join: bool,
    n: nat,
) -> Seq<Json>
    decreases n,
{
    if n == 0 {
        Seq::empty()
    } else {
        join_rows(left_rows, right_rows, on, left_join, (n - 1) as nat) + join_of(
            left_rows[n - 1],
            right_rows,
            on,
            left_join,
        )
    }
}

fn overlay(left: &JsonValue, right: &JsonValue) -> (r: JsonValue)
    ensures
        r@ == joined_row(left@, right@),
{
    match (left, right) {
        (JsonValue::Object(l), JsonValue::Object(r)) => {
            proof {
                lemma_object_view(*l);
                lemma_object_view(*r);
            }
            let mut fields = fields_copy(l);
            let ghost base = field_views(fields@);
            let ghost over = field_views(r@);
            let mut i: usize = 0;
            proof {
                assert(over.take(0) =~= Seq::<(Seq<char>, Json)>::empty());
            }
            while i < r.len()
                invariant
                    i <= r@.len(),
                    over == field_views(r@),
                    field_views(fields@) == overlaid(base, over.take(i as int)),
                decreases r@.len() - i,
            {
                proof {
                    assert(over.take(i as int + 1).drop_last() =~= over.take(i as int));
                    assert(over.take(i as int + 1).last() == over[i as int]);
                }
                put_field(&mut fields, &r[i].0, copy_json(&r[i].1));
                i = i + 1;
            }
            proof {
                assert(over.take(i as int) =~= over);
                lemma_object_view(fields);
            }
            JsonValue::Object(fields)
        },
        _ => copy_json(left),
    }
}

fn fields_copy(fields: &Vec<(String, JsonValue)>) -> (r: Vec<(String, JsonValue)>)
    ensures
        field_views(r@) == field_views(fields@),
{
    let ghost all = field_views(fields@);
    let mut out: Vec<(String, JsonValue)> = Vec::new();
    let mut i: usize = 0;
    proof {
        assert(field_views(out@) =~= all.take(0));
    }
    while i < fields.len()
        invariant
            i <= fields@.len(),
            all == field_views(fields@),
            field_views(out@) == all.take(i as int),
        decreases fields@.len() - i,
    {
        let ghost before = field_views(out@);
        out.push((copy_text(&fields[i].0), copy_json(&fields[i].1)));
        proof {
            assert(field_views(out@) =~= before.push(all[i as int]));
            assert(all.take(i as int + 1) =~= all.take(i as int).push(all[i as int]));
        }
        i = i + 1;
    }
    proof {
        assert(all.take(i as int) =~= all);
    }
    out
}

fn fill_nulls(left: &JsonValue, right_rows: &[JsonValue]) -> (r: JsonValue)
    ensures
        r@ == unmatched_row(left@, json_views(right_rows@)),
{
    if right_rows.len() == 0 {
        return copy_json(left);
    }
    proof {
        assert(json_views(right_rows@)[0] == right_rows@[0]@);
    }
    match (left, &right_rows[0]) {
        (JsonValue::Object(l), JsonValue::Object(r)) => {
            proof {
                lemma_object_view(*l);
                lemma_object_view(*r);
            }
            let mut fields = fields_copy(l);
            let ghost base = field_views(fields@);
            let ghost keys = field_views(r@);
            let mut i: usize = 0;
            proof {
                assert(keys.take(0) =~= Seq::<(Seq<char>, Json)>::empty());
            }
            while i < r.len()
                invariant
                    i <= r@.len(),
                    keys == field_views(r@),
                    field_views(fields@) == with_nulls(base, keys.take(i as int)),
                decreases r@.len() - i,
            {
                proof {
                    assert(keys.take(i as int + 1).drop_last() =~= keys.take(i as int));
                    assert(keys.take(i as int + 1).last() == keys[i as int]);
                }
                if find_key(&fields, &r[i].0).is_none() {
                    put_field(&mut fields, &r[i].0, JsonValue::Null);
                }
                i = i + 1;
            }
            proof {
                assert(keys.take(i as int) =~= keys);
                lemma_object_view(fields);
            }
            JsonValue::Object(fields)
        },
        _ => copy_json(left),
    }
}

fn key_columns(on: &Vec<(String, String)>, left: bool) -> (r: Vec<String>)
    ensures
        text_views(r@) == if left {
            target_cols(on@)
        } else {
            source_cols(on@)
        },
{
    let ghost want = if left {
        target_cols(on@)
    } else {
        source_cols(on@)
    };
    let mut out: Vec<String> = Vec::new();
    let mut i: usize = 0;
    proof {
        assert(text_views(out@) =~= want.take(0));
    }
    while i < on.len()
        invariant
            i <= on@.len(),
            want == if left {
                target_cols(on@)
            } else {
                source_cols(on@)
            },
            text_views(out@) == want.take(i as int),
        decreases on@.len() - i,
    {
        let ghost before = text_views(out@);
        if left {
            out.push(copy_text(&on[i].0));
        } else {
            out.push(copy_text(&on[i].1));
        }
        proof {
            assert(text_views(out@) =~= before.push(want[i as int]));
            assert(want.take(i as int + 1) =~= want.take(i as int).push(want[i as int]));
        }
        i = i + 1;
    }
    proof {
        assert(want.take(i as int) =~= want);
    }
    out
}

/// The composite keys of rows.
pub open spec fn keys_of(rows: Seq<Json>, cols: Seq<Seq<char>>) -> Seq<Seq<char>> {
    Seq::new(rows.len(), |i: int| composite_key(rows[i], cols))
}

fn row_keys(rows: &[JsonValue], cols: &Vec<String>) -> (r: Vec<String>)
    ensures
        text_views(r@) == keys_of(json_views(rows@), text_views(cols@)),
{
    let ghost want = keys_of(json_views(rows@), text_views(cols@));
    let mut out: Vec<String> = Vec::new();
    let mut i: usize = 0;
    proof {
        assert(text_views(out@) =~= want.take(0));
    }
    while i < rows.len()
        invariant
            i <= rows@.len(),
            want == keys_of(json_views(rows@), text_views(cols@)),
            text_views(out@) == want.take(i as int),
        decreases rows@.len() - i,
    {
        let ghost before = text_views(out@);
        let k = make_key(&rows[i], cols);
        let ghost kv = k@;
        out.push(k);
        proof {
            assert(text_views(out@) =~= before.push(kv));
            assert(want.take(i as int + 1) =~= want.take(i as int).push(want[i as int]));
        }
        i = i + 1;
    }
    proof {
        assert(want.take(i as int) =~= want);
    }
    out
}

/// The numbers of the keys in a table, so that equal keys have equal numbers.
fn number_keys(keys: &Vec<String>) -> (r: (Interner, Vec<usize>))
    ensures
        r.0.wf(),
        r.1@.len() == keys@.len(),
        forall|i: int|
            0 <= i < keys@.len() ==> (#[trigger] r.1@[i]) < r.0.keys().len() && r.0.keys()[r.1@[i] as int]
                == keys@[i]@,
{
    let mut index = Interner::new();
    let mut numbers: Vec<usize> = Vec::new();
    let mut i: usize = 0;
    while i < keys.len()
        invariant
            i <= keys@.len(),
            index.wf(),
            numbers@.len() == i,
            forall|k: int|
                0 <= k < i ==> (#[trigger] numbers@[k]) < index.keys().len() && index.keys()[numbers@[k] as int]
                    == keys@[k]@,
        decreases keys@.len() - i,
    {
        match index.get(&keys[i]) {
            Some(n) => {
                numbers.push(n);
            },
            None => {
                let n: usize = index.len();
                index.add(&keys[i]);
                numbers.push(n);
            },
        }
        i = i + 1;
    }
    (index, numbers)
}

/// Joins two sets of rows on pairs of columns, left and right.
pub fn execute_join(
    left_rows: &[JsonValue],
    right_rows: &[JsonValue],
    on: &Vec<(String, String)>,
    left_join: bool,
) -> (r: Vec<JsonValue>)
    ensures
        json_views(r@) == join_rows(
            json_views(left_rows@),
            json_views(right_rows@),
            on@,
            left_join,
            left_rows@.len(),
        ),
{
    let l_cols = key_columns(on, true);
    let r_cols = key_columns(on, false);
    let r_keys = row_keys(right_rows, &r_cols);
    let (index, numbers) = number_keys(&r_keys);
    let ghost lv = json_views(left_rows@);
    let ghost rv = json_views(right_rows@);
    let ghost rk = keys_of(rv, source_cols(on@));
    let mut out: Vec<JsonValue> = Vec::new();
    let mut i: usize = 0;
    proof {
        index.keys_are_distinct();
        assert(json_views(out@) =~= Seq::<Json>::empty());
    }
    while i < left_rows.len()
        invariant
            i <= left_rows@.len(),
            lv == json_views(left_rows@),
            rv == json_views(right_rows@),
            rk == keys_of(rv, source_cols(on@)),
            text_views(r_keys@) == rk,
            text_views(l_cols@) == target_cols(on@),
            index.wf(),
            index.keys().no_duplicates(),
            numbers@.len() == r_keys@.len(),
            forall|k: int|
                0 <= k < r_keys@.len() ==> (#[trigger] numbers@[k]) < index.keys().len()
                    && index.keys()[numbers@[k] as int] == r_keys@[k]@,
            json_views(out@) == join_rows(lv, rv, on@, left_join, i as nat),
        decreases left_rows@.len() - i,
    {
        let left = &left_rows[i];
        let key = make_key(left, &l_cols);
        let ghost start = json_views(out@);
        let mut any: bool = false;
        proof {
            assert(lv[i as int] == left@);
            assert(start + Seq::<Json>::empty() =~= start);
            assert(r_keys@.len() == rk.len());
        }
        let number = index.get(&key);
        let mut j: usize = 0;
        while j < right_rows.len()
            invariant
                j <= right_rows@.len(),
                rv == json_views(right_rows@),
                rk == keys_of(rv, source_cols(on@)),
                text_views(r_keys@) == rk,
                r_keys@.len() == rk.len(),
                index.keys().no_duplicates(),
                numbers@.len() == r_keys@.len(),
                forall|k: int|
                    0 <= k < r_keys@.len() ==> (#[trigger] numbers@[k]) < index.keys().len()
                        && index.keys()[numbers@[k] as int] == r_keys@[k]@,
                match number {
                    Some(n) => n < index.keys().len() && index.keys()[n as int] == key@,
                    None => !index.keys().contains(key@),
                },
                json_views(out@) == start + matches_joined(
                    left@,
                    key@,
                    rv,
                    source_cols(on@),
                    j as nat,
                ),
                any == (matches_joined(left@, key@, rv, source_cols(on@), j as nat).len() > 0),
            decreases right_rows@.len() - j,
        {
            let ghost m = matches_joined(left@, key@, rv, source_cols(on@), j as nat);
            let same: bool = match number {
                Some(n) => numbers[j] == n,
                None => false,
            };
            proof {
                assert(rk[j as int] == r_keys@[j as int]@);
                assert(index.keys()[numbers@[j as int] as int] == rk[j as int]);
                if rk[j as int] == key@ {
                    assert(index.keys().contains(key@));
                }
                assert(same == (composite_key(rv[j as int], source_cols(on@)) == key@));
                assert(rv[j as int] == right_rows@[j as int]@);
            }
            if same {
                let ghost before = json_views(out@);
                let row = overlay(left, &right_rows[j]);
                let ghost w = row@;
                out.push(row);
                any = true;
                proof {
                    assert(json_views(out@) =~= before.push(w));
                    assert(start + m.push(w) =~= (start + m).push(w));
                }
            }
            j = j + 1;
        }
        if !any {
            proof {
                assert(matches_joined(left@, key@, rv, source_cols(on@), rv.len())
                    =~= Seq::<Json>::empty());
                assert(json_views(out@) =~= start);
            }
            if left_join {
                let row = fill_nulls(left, right_rows);
                let ghost w = row@;
                out.push(row);
                proof {
                    assert(json_views(out@) =~= start + seq![w]);
                }
            }
        }
        i = i + 1;
    }
    out
}

/// A left join keeps every left row.
pub proof fn left_join_keeps_left_rows(
    left_rows: Seq<Json>,
    right_rows: Seq<Json>,
    on: Seq<(String, String)>,
    n: nat,
)
    requires
        n <= left_rows.len(),
    ensures
        join_rows(left_rows, right_rows, on, true, n).len() >= n,
    decreases n,
{
    if n > 0 {
        left_join_keeps_left_rows(left_rows, right_rows, on, (n - 1) as nat);
    }
}

} // verus!
