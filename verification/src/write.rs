//! Writing rows: what becomes of columns and of JSON rows on their way into a
//! collection.

use vstd::prelude::*;
use vstd::string::*;
use crate::bytes::copy_bytes;
use crate::infer::{cell_of, column_masked, extract_cell, filter_column, json_to_typed_columns, typed_columns,
    typed_views, CellExtra};
use crate::json::{field_views, json_list_parsed, json_parsed, json_views, lemma_object_view, parse_json,
    parse_json_list, put, put_field, Json, JsonValue};
use crate::merge_text::opt_str;
use crate::policy::{add_tenant_column, tenanted};
use crate::text::chars_of;
use crate::typed::{TypedColumn, TypedView};
use crate::where_clause::message;

verus! {

/// The fields of a row in the first `n` columns.
pub open spec fn fields_at(cols: Seq<(String, TypedColumn)>, extras: Seq<CellExtra>, i: int, n: nat) -> Seq<
    (Seq<char>, Json),
>
    decreases n,
{
    if n == 0 {
        Seq::empty()
    } else {
        put(
            fields_at(cols, extras, i, (n - 1) as nat),
            cols[n - 1].0@,
            cell_of(cols[n - 1].1, i, extras[n - 1]),
        )
    }
}

/// The row of columns at an index, for a condition to read. There is a companion
/// with the texts of floats for each column.
pub fn row_of_columns(cols: &Vec<(String, TypedColumn)>, extras: &Vec<CellExtra>, idx: usize) -> (r: JsonValue)
    requires
        extras@.len() == cols@.len(),
    ensures
        r@ == Json::Object(fields_at(cols@, extras@, idx as int, cols@.len())),
{
    let mut fields: Vec<(String, JsonValue)> = Vec::new();
    let mut c: usize = 0;
    proof {
        assert(field_views(fields@) =~= Seq::<(Seq<char>, Json)>::empty());
    }
    while c < cols.len()
        invariant
            c <= cols@.len(),
            extras@.len() == cols@.len(),
            field_views(fields@) == fields_at(cols@, extras@, idx as int, c as nat),
        decreases cols@.len() - c,
    {
        let v = extract_cell(&cols[c].1, idx, &extras[c]);
        put_field(&mut fields, &cols[c].0, v);
        c = c + 1;
    }
    proof {
        lemma_object_view(fields);
    }
    JsonValue::Object(fields)
}

/// Columns hold of other columns the rows that a mask keeps, all without one.
pub open spec fn kept_columns(
    cols: Seq<(String, TypedColumn)>,
    r: Seq<(String, TypedColumn)>,
    mask: Option<Seq<bool>>,
) -> bool {
    match mask {
        None => r == cols,
        Some(m) => r.len() == cols.len() && forall|i: int|
            0 <= i < cols.len() ==> (#[trigger] r[i]).0 == cols[i].0 && column_masked(
                cols[i].1,
                r[i].1,
                m,
            ),
    }
}

pub open spec fn opt_mask(mask: Option<&[bool]>) -> Option<Seq<bool>> {
    match mask {
        Some(m) => Some(m@),
        None => None,
    }
}

fn keep_columns(cols: Vec<(String, TypedColumn)>, mask: Option<&[bool]>) -> (r: Vec<(String, TypedColumn)>)
    ensures
        kept_columns(cols@, r@, opt_mask(mask)),
{
    match mask {
        None => cols,
        Some(m) => {
            let ghost all = cols@;
            let mut out: Vec<(String, TypedColumn)> = Vec::new();
            for col in it: cols
                invariant
                    it.seq() == all,
                    out@.len() == it.index(),
                    forall|k: int|
                        0 <= k < it.index() ==> (#[trigger] out@[k]).0 == all[k].0 && column_masked(
                            all[k].1,
                            out@[k].1,
                            m@,
                        ),
            {
                let (name, values) = col;
                out.push((name, filter_column(values, m)));
            }
            out
        },
    }
}

/// Prepares columns for writing: the rows that a mask keeps, with the tenant's
/// column where a policy asks for it.
pub fn write_rows(cols: Vec<(String, TypedColumn)>, keep_mask: Option<&[bool]>, tenant: Option<&str>) -> (r: Vec<
    (String, TypedColumn),
>)
    ensures
        exists|kept: Seq<(String, TypedColumn)>|
            #[trigger] kept_columns(cols@, kept, opt_mask(keep_mask)) && typed_views(r@) == tenanted(
                typed_views(kept),
                opt_str(tenant),
            ),
{
    let ghost all = cols@;
    let mut kept = keep_columns(cols, keep_mask);
    let ghost k = kept@;
    add_tenant_column(&mut kept, tenant);
    proof {
        assert(kept_columns(all, k, opt_mask(keep_mask)));
    }
    kept
}

/// The columns that rows are written as, or why they are not: there must be a
/// row, and a column.
pub open spec fn columns_to_write(rows: Seq<Json>) -> Result<Seq<(Seq<char>, TypedView)>, Seq<char>> {
    if rows.len() == 0 {
        Err("empty JSON array — nothing to write"@)
    } else if typed_columns(rows).len() == 0 {
        Err("no columns inferred from input rows"@)
    } else {
        Ok(typed_columns(rows))
    }
}

/// Infers the columns that JSON rows are written as.
pub fn cmd_write_rows(rows: &[JsonValue]) -> (r: Result<Vec<(String, TypedColumn)>, String>)
    ensures
        match r {
            Ok(cols) => columns_to_write(json_views(rows@)) == Ok::<Seq<(Seq<char>, TypedView)>, Seq<char>>(
                typed_views(cols@),
            ),
            Err(e) => columns_to_write(json_views(rows@)) == Err::<Seq<(Seq<char>, TypedView)>, Seq<char>>(e@),
        },
{
    if rows.len() == 0 {
        return Err("empty JSON array — nothing to write".to_owned());
    }
    let cols = json_to_typed_columns(rows);
    proof {
        assert(typed_views(cols@).len() == cols@.len());
    }
    if cols.len() == 0 {
        Err("no columns inferred from input rows".to_owned())
    } else {
        Ok(cols)
    }
}

/// The words for input that is no list of rows.
pub open spec fn no_rows_text(words: Seq<char>) -> Seq<char> {
    "input must be a JSON array of objects: "@ + words
}

/// Reads the columns to write out of input: a JSON list of rows.
pub fn write_rows_input(raw: &[u8]) -> (r: Result<Vec<(String, TypedColumn)>, String>)
    ensures
        match json_parsed(raw@) {
            Ok(Json::Array(items)) => match r {
                Ok(cols) => columns_to_write(items) == Ok::<Seq<(Seq<char>, TypedView)>, Seq<char>>(
                    typed_views(cols@),
                ),
                Err(e) => columns_to_write(items) == Err::<Seq<(Seq<char>, TypedView)>, Seq<char>>(e@),
            },
            _ => r matches Err(e) && json_list_parsed(raw@) matches Err(words) && e@ == no_rows_text(words),
        },
{
    match parse_json_list(raw) {
        Ok(rows) => cmd_write_rows(&rows),
        Err(words) => {
            let w = chars_of(&words);
            let e = message("input must be a JSON array of objects: ", &w, "");
            proof {
                reveal_strlit("");
                assert(e@ =~= no_rows_text(words@));
            }
            Err(e)
        },
    }
}

/// The bytes of a text that has to be JSON, or the words why it is not.
pub fn json_input(text: &str) -> (r: Result<Vec<u8>, String>)
    ensures
        match (r, json_parsed(text.spec_bytes())) {
            (Ok(bytes), Ok(_)) => bytes@ == text.spec_bytes(),
            (Err(e), Err(words)) => e@ == "invalid JSON: "@ + words,
            _ => false,
        },
{
    match parse_json(text.as_bytes()) {
        Ok(_) => Ok(copy_bytes(text.as_bytes())),
        Err(words) => {
            let w = chars_of(&words);
            let e = message("invalid JSON: ", &w, "");
            proof {
                reveal_strlit("");
                assert(e@ =~= "invalid JSON: "@ + words@);
            }
            Err(e)
        },
    }
}

} // verus!
