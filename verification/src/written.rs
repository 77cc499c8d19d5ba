//! Rows that were written are read back.

use vstd::prelude::*;
use vstd::string::*;
use vstd::utf8::{encode_utf8, encode_utf8_decode_utf8, encode_utf8_valid_utf8};
use crate::assemble::blob_bytes;
use crate::blob::{decoded, DecodeErrorView};
use crate::constants::{VT_INT64, VT_STRING};
use crate::infer::{any_bool, any_float, any_int, any_other, any_text, inferred, is_float};
use crate::json::{lookup, member, put_then_lookup, Json, Number};
use crate::media::base64_text;
use crate::round_trip::{named, typed_blob_round_trip, typed_readable, typed_view};
use crate::rows::{extras_at, json_or_null, row_at, row_count, row_fields, shown_cell, shown_text,
    stored_cell, CellExtras};
use crate::typed::{text_bytes, typed_parts, typed_rows, TypedColumn, TypedView};
use crate::types::{byte_views, ints_column, strs_column, ColumnView};

verus! {

/// What is read of a value that was written: numbers and texts as they are, a
/// float with its JSON text, bytes as base64 under a mark, a JSON text as the
/// value that it is. Booleans and times have no plain form here.
pub open spec fn cell_written(col: TypedColumn, extras: Option<CellExtras>, i: int) -> Json {
    match col {
        TypedColumn::Int64(v) => Json::Number(Number::Int(v@[i])),
        TypedColumn::Float64(v) => match extras {
            Some(e) => if i < e.float_texts@.len() && e.float_texts@[i] is Some {
                Json::Number(Number::Float(v@[i], e.float_texts@[i]->0@))
            } else {
                Json::Null
            },
            None => Json::Null,
        },
        TypedColumn::String(v) => Json::String(v@[i]@),
        TypedColumn::Binary(v) => Json::String("__bin_b64__:"@ + base64_text(v@[i]@)),
        TypedColumn::Variant(v) => json_or_null(v@[i]@),
        _ => Json::Null,
    }
}

proof fn lemma_shown(s: Seq<char>)
    ensures
        shown_text(encode_utf8(s)) == s,
{
    encode_utf8_valid_utf8(s);
    encode_utf8_decode_utf8(s);
}

proof fn lemma_cell(name: Seq<u8>, col: TypedColumn, extras: Option<CellExtras>, i: int)
    requires
        typed_readable(col),
        0 <= i < col.len_spec(),
    ensures
        stored_cell(named(name, typed_view(col)), extras, i) == cell_written(col, extras, i),
{
    match col {
        TypedColumn::String(v) => {
            lemma_shown(v@[i]@);
            assert(text_bytes(v@)[i] == encode_utf8(v@[i]@));
        },
        TypedColumn::Variant(v) => {
            lemma_shown(v@[i]@);
            assert(text_bytes(v@)[i] == encode_utf8(v@[i]@));
        },
        TypedColumn::Binary(v) => {
            assert(byte_views(v@)[i] == v@[i]@);
        },
        _ => {},
    }
}

proof fn lemma_field(
    cols: Seq<ColumnView>,
    extras: Seq<CellExtras>,
    i: int,
    n: nat,
    c: int,
    names: Seq<Seq<char>>,
)
    requires
        n <= cols.len(),
        cols.len() == names.len(),
        0 <= c < n,
        forall|k: int| 0 <= k < cols.len() ==> shown_text((#[trigger] cols[k]).name) == names[k],
        names.no_duplicates(),
    ensures
        lookup(row_fields(cols, extras, i, false, n), names[c]) == Some(
            stored_cell(cols[c], extras_at(extras, c), i),
        ),
    decreases n,
{
    let k = n - 1;
    let prev = row_fields(cols, extras, i, false, k as nat);
    let cell = stored_cell(cols[k], extras_at(extras, k), i);
    assert(shown_text(cols[k].name) == names[k]);
    put_then_lookup(prev, names[k], cell, names[c]);
    if c < k {
        lemma_field(cols, extras, i, k as nat, c, names);
        assert(names[c] != names[k]);
    }
}

/// The columns that a blob of typed columns decodes to.
pub open spec fn columns_written(columns: Seq<(&str, TypedColumn)>) -> Seq<ColumnView> {
    Seq::new(
        columns.len(),
        |i: int| named(columns[i].0.spec_bytes(), typed_view(columns[i].1)),
    )
}

/// Typed columns that were written as a blob are read back as rows: as many rows
/// as there were values, and under each column's name the value that was written.
pub proof fn written_rows_read_back(
    columns: Seq<(&str, TypedColumn)>,
    extras: Seq<CellExtras>,
    c: int,
    i: int,
)
    requires
        columns.len() <= 0xFFFF,
        forall|k: int|
            0 <= k < columns.len() ==> typed_readable((#[trigger] columns[k]).1)
                && columns[k].0.spec_bytes().len() <= 255 && columns[k].1.len_spec()
                == columns[0].1.len_spec() && columns[k].1.payload_spec().len() <= 0xFFFF_FFFF,
        typed_rows(columns) <= 0xFFFF_FFFF,
        forall|a: int, b: int|
            0 <= a < columns.len() && 0 <= b < columns.len() && a != b ==> (#[trigger] columns[a]).0@ != (
            #[trigger] columns[b]).0@,
        0 <= c < columns.len(),
        0 <= i < typed_rows(columns),
    ensures
        decoded(blob_bytes(typed_rows(columns), typed_parts(columns)), None) == Ok::<
            Seq<ColumnView>,
            DecodeErrorView,
        >(columns_written(columns)),
        row_count(columns_written(columns)) == typed_rows(columns),
        member(row_at(columns_written(columns), extras, i, false), columns[c].0@) == Some(
            cell_written(columns[c].1, extras_at(extras, c), i),
        ),
{
    typed_blob_round_trip(columns);
    let cols = columns_written(columns);
    let names = Seq::new(columns.len(), |k: int| columns[k].0@);
    assert forall|k: int| 0 <= k < cols.len() implies shown_text((#[trigger] cols[k]).name) == names[k] by {
        lemma_shown(columns[k].0@);
    }
    assert(names.no_duplicates()) by {
        assert forall|a: int, b: int| 0 <= a < names.len() && 0 <= b < names.len() && a != b implies names[a]
            != names[b] by {
            assert(columns[a].0@ != columns[b].0@);
        }
    }
    lemma_field(cols, extras, i, cols.len(), c, names);
    assert(typed_readable(columns[c].1));
    assert(columns[c].1.len_spec() == columns[0].1.len_spec());
    lemma_cell(columns[c].0.spec_bytes(), columns[c].1, extras_at(extras, c), i);
    assert(typed_readable(columns[0].1));
    lemma_count(columns[0].1);
}

proof fn lemma_count(col: TypedColumn)
    requires
        typed_readable(col),
    ensures
        typed_view(col).n == col.len_spec(),
{
}

/// Values that rows give to a column and that are all whole numbers, or all
/// texts, are shown again as they were.
pub proof fn shown_cells_read_back(name: Seq<u8>, values: Seq<Json>, extras: Option<CellExtras>, i: int)
    requires
        0 <= i < values.len(),
        (forall|k: int| 0 <= k < values.len() ==> (#[trigger] values[k]) matches Json::Number(Number::Int(_)))
            || (forall|k: int| 0 <= k < values.len() ==> (#[trigger] values[k]) is String),
    ensures
        match inferred(values) {
            TypedView::Int64(v) => shown_cell(named(name, ints_column(VT_INT64, v)), extras, i) == values[i],
            TypedView::String(v) => shown_cell(
                named(
                    name,
                    strs_column(VT_STRING, Seq::new(v.len(), |k: int| encode_utf8(v[k]))),
                ),
                extras,
                i,
            ) == values[i],
            _ => false,
        },
{
    assert(values[i] == values[i]);
    if values[0] is String {
        assert(any_text(values));
        assert(values[i] is String);
        lemma_shown(values[i]->String_0);
    } else {
        assert(values[0] is Number);
        assert(any_int(values));
        assert forall|k: int| 0 <= k < values.len() implies !((#[trigger] values[k]) is String)
            && !(values[k] is Bool) && !(values[k] is Array) && !(values[k] is Object) && !is_float(values[k]) by {
            assert(values[k] is Number);
        }
        assert(!any_text(values));
        assert(!any_bool(values));
        assert(!any_other(values));
        assert(!any_float(values));
        assert(values[i] is Number);
    }
}

} // verus!
