//! From columns to rows.

use std::collections::hash_map::DefaultHasher;
use std::hash::Hasher;
use vstd::prelude::*;
use vstd::string::*;
use vstd::std_specs::hash::DefaultHasherAdditionalSpecFns;
use vstd::utf8::{decode_utf8, encode_utf8, valid_utf8};
use crate::blob::column_views;
use crate::constants::{VT_BINARY, VT_BOOLEAN, VT_FLOAT64, VT_INT64, VT_STRING};
use crate::json::{
    copy_json, field_views, i64_of, json_shown, json_parsed, json_text, json_views,
    lemma_object_view, member, parse_json, put, put_field, str_of, Json, JsonNumber, JsonValue,
    Number,
};
use crate::media::{base64_encode, base64_text};
use crate::merge::{is_meta, meta_key};
use crate::predicate::{eval_predicate, predicate_holds};
use crate::text::{char_views, chars_of, copy_text, decimal_int, push_chars, split, split_chars, text_of, text_views,
    trim_chars, trimmed, write_int};
use crate::types::{ColumnView, PondColumn};
use crate::where_clause::{
    clause_of, parse_where_clause, predicate_views, FloatTable, PredicateView,
};

verus! {

/// A text made of bytes, with a replacement character for what is no UTF-8.
pub uninterp spec fn lossy_text(bytes: Seq<u8>) -> Seq<char>;

/// `String::from_utf8_lossy`: the text that the bytes encode. Where they are no
/// valid UTF-8, what stands for the bad parts is named and not written out.
#[verifier::external_body]
pub(crate) fn text_from_bytes(bytes: &[u8]) -> (r: String)
    ensures
        r@ == lossy_text(bytes@),
        valid_utf8(bytes@) ==> r@ == decode_utf8(bytes@),
{
    String::from_utf8_lossy(bytes).into_owned()
}

/// A text made of bytes. What it is for valid UTF-8 is known.
pub open spec fn shown_text(bytes: Seq<u8>) -> Seq<char> {
    if valid_utf8(bytes) {
        decode_utf8(bytes)
    } else {
        lossy_text(bytes)
    }
}

/// The JSON text of each float of a column that has one.
pub struct CellExtras {
    pub float_texts: Vec<Option<String>>,
}

pub open spec fn float_cell(col: ColumnView, extras: Option<CellExtras>, i: int) -> Json {
    match extras {
        Some(e) => if i < col.floats.len() && i < e.float_texts@.len() {
            match e.float_texts@[i] {
                Some(t) => Json::Number(Number::Float(col.floats[i], t@)),
                None => Json::Null,
            }
        } else {
            Json::Null
        },
        None => Json::Null,
    }
}

/// The JSON value that a text is, or null.
pub open spec fn json_or_null(text: Seq<char>) -> Json {
    match json_parsed(encode_utf8(text)) {
        Ok(v) => v,
        Err(_) => Json::Null,
    }
}

pub open spec fn variant_cell(col: ColumnView, i: int) -> Json {
    if i < col.strs.len() {
        json_or_null(shown_text(col.strs[i]))
    } else {
        Json::Null
    }
}

pub open spec fn int_cell(col: ColumnView, i: int) -> Json {
    if i < col.ints.len() {
        Json::Number(Number::Int(col.ints[i]))
    } else {
        Json::Null
    }
}

pub open spec fn str_cell(col: ColumnView, i: int) -> Json {
    if i < col.strs.len() {
        Json::String(shown_text(col.strs[i]))
    } else {
        Json::Null
    }
}

/// A stored cell: numbers and texts as they are, bytes as base64 under a mark,
/// any other type as the JSON value that its text is. What is missing is null.
pub open spec fn stored_cell(col: ColumnView, extras: Option<CellExtras>, i: int) -> Json {
    if col.vtype == VT_INT64 {
        int_cell(col, i)
    } else if col.vtype == VT_FLOAT64 {
        float_cell(col, extras, i)
    } else if col.vtype == VT_STRING {
        str_cell(col, i)
    } else if col.vtype == VT_BINARY {
        if i < col.bins.len() {
            Json::String("__bin_b64__:"@ + base64_text(col.bins[i]))
        } else {
            Json::Null
        }
    } else {
        variant_cell(col, i)
    }
}

/// A cell to show: booleans as such, types without a plain form as null.
pub open spec fn shown_cell(col: ColumnView, extras: Option<CellExtras>, i: int) -> Json {
    if col.vtype == VT_INT64 {
        int_cell(col, i)
    } else if col.vtype == VT_FLOAT64 {
        float_cell(col, extras, i)
    } else if col.vtype == VT_STRING {
        str_cell(col, i)
    } else if col.vtype == VT_BOOLEAN {
        if i < col.ints.len() {
            Json::Bool(col.ints[i] != 0)
        } else {
            Json::Null
        }
    } else {
        Json::Null
    }
}

pub open spec fn extras_at(extras: Seq<CellExtras>, c: int) -> Option<CellExtras> {
    if c < extras.len() {
        Some(extras[c])
    } else {
        None
    }
}

fn json_int(col: &PondColumn, i: usize) -> (r: JsonValue)
    ensures
        r@ == int_cell(col@, i as int),
{
    if i < col.i64_data.len() {
        JsonValue::Number(JsonNumber::Int(col.i64_data[i]))
    } else {
        JsonValue::Null
    }
}

fn json_str(col: &PondColumn, i: usize) -> (r: JsonValue)
    ensures
        r@ == str_cell(col@, i as int),
{
    if i < col.str_data.len() {
        JsonValue::String(text_from_bytes(&col.str_data[i]))
    } else {
        JsonValue::Null
    }
}

fn json_float(col: &PondColumn, extras: &Vec<CellExtras>, c: usize, i: usize) -> (r: JsonValue)
    ensures
        r@ == float_cell(col@, extras_at(extras@, c as int), i as int),
{
    if c < extras.len() && i < col.f64_data.len() && i < extras[c].float_texts.len() {
        match &extras[c].float_texts[i] {
            Some(t) => JsonValue::Number(JsonNumber::Float(col.f64_data[i], copy_text(t))),
            None => JsonValue::Null,
        }
    } else {
        JsonValue::Null
    }
}

/// Reads a text as JSON; null where it is none.
pub fn read_json_or_null(text: &str) -> (r: JsonValue)
    ensures
        r@ == json_or_null(text@),
{
    match parse_json(text.as_bytes()) {
        Ok(v) => v,
        Err(_) => JsonValue::Null,
    }
}

fn json_variant(col: &PondColumn, i: usize) -> (r: JsonValue)
    ensures
        r@ == variant_cell(col@, i as int),
{
    if i < col.str_data.len() {
        let text = text_from_bytes(&col.str_data[i]);
        read_json_or_null(&text)
    } else {
        JsonValue::Null
    }
}

fn json_stored(col: &PondColumn, extras: &Vec<CellExtras>, c: usize, i: usize) -> (r: JsonValue)
    ensures
        r@ == stored_cell(col@, extras_at(extras@, c as int), i as int),
{
    if col.vtype == VT_INT64 {
        json_int(col, i)
    } else if col.vtype == VT_FLOAT64 {
        json_float(col, extras, c, i)
    } else if col.vtype == VT_STRING {
        json_str(col, i)
    } else if col.vtype == VT_BINARY {
        if i < col.bin_data.len() {
            let mut out = chars_of("__bin_b64__:");
            let b = base64_encode(&col.bin_data[i]);
            let bc = chars_of(&b);
            push_chars(&mut out, &bc);
            JsonValue::String(text_of(&out))
        } else {
            JsonValue::Null
        }
    } else {
        json_variant(col, i)
    }
}

fn cell_to_show(col: &PondColumn, extras: &Vec<CellExtras>, c: usize, i: usize) -> (r: JsonValue)
    ensures
        r@ == shown_cell(col@, extras_at(extras@, c as int), i as int),
{
    if col.vtype == VT_INT64 {
        json_int(col, i)
    } else if col.vtype == VT_FLOAT64 {
        json_float(col, extras, c, i)
    } else if col.vtype == VT_STRING {
        json_str(col, i)
    } else if col.vtype == VT_BOOLEAN {
        if i < col.i64_data.len() {
            JsonValue::Bool(col.i64_data[i] != 0)
        } else {
            JsonValue::Null
        }
    } else {
        JsonValue::Null
    }
}

/// The fields of row `i` in the first `n` columns. To show a row, the columns
/// that carry its id, version and deletion mark are left out.
pub open spec fn row_fields(
    cols: Seq<ColumnView>,
    extras: Seq<CellExtras>,
    i: int,
    show: bool,
    n: nat,
) -> Seq<(Seq<char>, Json)>
    decreases n,
{
    if n == 0 {
        Seq::empty()
    } else {
        let c = n - 1;
        let prev = row_fields(cols, extras, i, show, c as nat);
        let name = shown_text(cols[c].name);
        if show && is_meta(name) {
            prev
        } else {
            put(
                prev,
                name,
                if show {
                    shown_cell(cols[c], extras_at(extras, c), i)
                } else {
                    stored_cell(cols[c], extras_at(extras, c), i)
                },
            )
        }
    }
}

/// Row `i` of the columns.
pub open spec fn row_at(cols: Seq<ColumnView>, extras: Seq<CellExtras>, i: int, show: bool) -> Json {
    Json::Object(row_fields(cols, extras, i, show, cols.len()))
}

/// The number of rows: that of the first column.
pub open spec fn row_count(cols: Seq<ColumnView>) -> nat {
    if cols.len() > 0 {
        cols[0].n
    } else {
        0
    }
}

fn make_row(cols: &Vec<PondColumn>, extras: &Vec<CellExtras>, i: usize, show: bool) -> (r: JsonValue)
    ensures
        r@ == row_at(column_views(cols@), extras@, i as int, show),
{
    let ghost cv = column_views(cols@);
    let mut fields: Vec<(String, JsonValue)> = Vec::new();
    let mut c: usize = 0;
    proof {
        assert(field_views(fields@) =~= Seq::<(Seq<char>, Json)>::empty());
    }
    while c < cols.len()
        invariant
            c <= cols@.len(),
            cv == column_views(cols@),
            field_views(fields@) == row_fields(cv, extras@, i as int, show, c as nat),
        decreases cols@.len() - c,
    {
        proof {
            assert(cv[c as int] == cols@[c as int]@);
        }
        let name = text_from_bytes(&cols[c].name);
        if !(show && meta_key(&name)) {
            let cell = if show {
                cell_to_show(&cols[c], extras, c, i)
            } else {
                json_stored(&cols[c], extras, c, i)
            };
            put_field(&mut fields, &name, cell);
        }
        c = c + 1;
    }
    proof {
        lemma_object_view(fields);
    }
    JsonValue::Object(fields)
}

/// The text of an id: a text as it is, a whole number in decimal.
pub open spec fn id_text(v: Option<Json>) -> Option<Seq<char>> {
    match v {
        Some(x) => match (str_of(x), i64_of(x)) {
            (Some(s), _) => Some(s),
            (_, Some(n)) => Some(decimal_int(n as int)),
            _ => None,
        },
        None => None,
    }
}

/// The row's own id: `_rowid`, the first key field, `_key`, `id`, `key`, the
/// first of these that is a text or a whole number.
pub open spec fn own_id(row: Json, key_fields: Seq<Seq<char>>) -> Option<Seq<char>> {
    if id_text(member(row, "_rowid"@)) is Some {
        id_text(member(row, "_rowid"@))
    } else if key_fields.len() > 0 && id_text(member(row, key_fields[0])) is Some {
        id_text(member(row, key_fields[0]))
    } else if id_text(member(row, "_key"@)) is Some {
        id_text(member(row, "_key"@))
    } else if id_text(member(row, "id"@)) is Some {
        id_text(member(row, "id"@))
    } else {
        id_text(member(row, "key"@))
    }
}

/// A hexadecimal digit.
pub open spec fn hex_char(v: nat) -> char {
    if v < 10 {
        (v + 48) as u8 as char
    } else {
        (v + 87) as u8 as char
    }
}

/// The low `n` hexadecimal digits of a number.
pub open spec fn hex_digits(v: nat, n: nat) -> Seq<char>
    decreases n,
{
    if n == 0 {
        Seq::empty()
    } else {
        hex_digits(v / 16, (n - 1) as nat).push(hex_char(v % 16))
    }
}

pub fn write_hex(v: u64, n: usize) -> (r: Vec<char>)
    ensures
        r@ == hex_digits(v as nat, n as nat),
    decreases n,
{
    if n == 0 {
        Vec::new()
    } else {
        let mut out = write_hex(v / 16, n - 1);
        let d: u8 = (v % 16) as u8;
        out.push(
            if d < 10 {
                (d + 48) as char
            } else {
                (d + 87) as char
            },
        );
        out
    }
}

/// The hash of a text, in hexadecimal: by the standard library's default
/// hasher, fed with the text's bytes and an end mark.
pub open spec fn hash_text(s: Seq<char>) -> Seq<char> {
    hex_digits(
        DefaultHasher::spec_finish(seq![encode_utf8(s), seq![255u8]]) as nat,
        16,
    )
}

fn hash_of(s: &str) -> (r: String)
    ensures
        r@ == hash_text(s@),
{
    let mut hasher = DefaultHasher::new();
    hasher.write(s.as_bytes());
    let end: [u8; 1] = [255u8];
    hasher.write(&end);
    proof {
        assert(end@ =~= seq![255u8]);
        assert(hasher@ =~= seq![encode_utf8(s@), seq![255u8]]);
    }
    let h = write_hex(hasher.finish(), 16);
    text_of(&h)
}

/// The row's id: its own, else the hash of its JSON text.
pub open spec fn rowid_for(row: Json, key_fields: Seq<Seq<char>>) -> Seq<char> {
    match own_id(row, key_fields) {
        Some(id) => id,
        None => hash_text(json_shown(row)),
    }
}

fn read_id(row: &JsonValue, key: &str) -> (r: Option<String>)
    ensures
        match r {
            Some(s) => id_text(member(row@, key@)) == Some(s@),
            None => id_text(member(row@, key@)) is None,
        },
{
    match row.get(key) {
        Some(v) => {
            if let Some(s) = v.as_str() {
                return Some(copy_text(s));
            }
            match v.as_i64() {
                Some(n) => Some(write_int(n)),
                None => None,
            }
        },
        None => None,
    }
}

/// Determines the id of a row.
pub fn determine_rowid(row: &JsonValue, key_fields: &Vec<String>) -> (r: String)
    ensures
        r@ == rowid_for(row@, text_views(key_fields@)),
{
    if let Some(s) = read_id(row, "_rowid") {
        return s;
    }
    if key_fields.len() > 0 {
        if let Some(s) = read_id(row, &key_fields[0]) {
            return s;
        }
    }
    if let Some(s) = read_id(row, "_key") {
        return s;
    }
    if let Some(s) = read_id(row, "id") {
        return s;
    }
    if let Some(s) = read_id(row, "key") {
        return s;
    }
    let text = json_text(row);
    hash_of(&text)
}

/// The stored rows among the first `n` that the mask keeps, each with its id.
pub open spec fn kept_rows(
    cols: Seq<ColumnView>,
    extras: Seq<CellExtras>,
    key_fields: Seq<Seq<char>>,
    mask: Option<Seq<bool>>,
    n: nat,
) -> Seq<(Seq<char>, Json)>
    decreases n,
{
    if n == 0 {
        Seq::empty()
    } else {
        let i = n - 1;
        let prev = kept_rows(cols, extras, key_fields, mask, i as nat);
        if mask is Some && !mask->0[i] {
            prev
        } else {
            let row = row_at(cols, extras, i, false);
            prev.push((rowid_for(row, key_fields), row))
        }
    }
}

pub open spec fn mask_view(mask: Option<&[bool]>) -> Option<Seq<bool>> {
    match mask {
        Some(m) => Some(m@),
        None => None,
    }
}

/// Turns columns into rows with their ids; a mask tells which rows to keep.
pub fn decode_cols_to_rows_filtered(
    cols: &Vec<PondColumn>,
    extras: &Vec<CellExtras>,
    key_fields: &Vec<String>,
    keep_mask: Option<&[bool]>,
) -> (r: Vec<(String, JsonValue)>)
    requires
        keep_mask matches Some(m) ==> m@.len() >= row_count(column_views(cols@)),
    ensures
        field_views(r@) == kept_rows(
            column_views(cols@),
            extras@,
            text_views(key_fields@),
            mask_view(keep_mask),
            row_count(column_views(cols@)),
        ),
{
    let ghost cv = column_views(cols@);
    let ghost kf = text_views(key_fields@);
    let mut out: Vec<(String, JsonValue)> = Vec::new();
    let n: usize = if cols.len() > 0 {
        cols[0].n_values
    } else {
        0
    };
    let mut i: usize = 0;
    proof {
        assert(field_views(out@) =~= Seq::<(Seq<char>, Json)>::empty());
        assert(cols@.len() > 0 ==> cv[0] == cols@[0]@);
    }
    while i < n
        invariant
            i <= n,
            n == row_count(cv),
            cv == column_views(cols@),
            kf == text_views(key_fields@),
            keep_mask matches Some(m) ==> m@.len() >= n,
            field_views(out@) == kept_rows(cv, extras@, kf, mask_view(keep_mask), i as nat),
        decreases n - i,
    {
        let keep: bool = match keep_mask {
            Some(m) => m[i],
            None => true,
        };
        if keep {
            let ghost before = field_views(out@);
            let row = make_row(cols, extras, i, false);
            let id = determine_rowid(&row, key_fields);
            let ghost f = (id@, row@);
            out.push((id, row));
            proof {
                assert(field_views(out@) =~= before.push(f));
            }
        }
        i = i + 1;
    }
    out
}

/// Turns columns into rows with their ids.
pub fn decode_cols_to_rows(
    cols: &Vec<PondColumn>,
    extras: &Vec<CellExtras>,
    key_fields: &Vec<String>,
) -> (r: Vec<(String, JsonValue)>)
    ensures
        field_views(r@) == kept_rows(
            column_views(cols@),
            extras@,
            text_views(key_fields@),
            None,
            row_count(column_views(cols@)),
        ),
{
    decode_cols_to_rows_filtered(cols, extras, key_fields, None)
}

/// The first `n` rows to show.
pub open spec fn shown_rows(cols: Seq<ColumnView>, extras: Seq<CellExtras>, n: nat) -> Seq<Json> {
    Seq::new(n, |i: int| row_at(cols, extras, i, true))
}

/// A decoded row group and what only a JSON library tells of it.
pub struct RowGroup {
    pub columns: Vec<PondColumn>,
    pub extras: Vec<CellExtras>,
}

/// The rows of the first `n` groups to show.
pub open spec fn group_rows(groups: Seq<RowGroup>, n: nat) -> Seq<Json>
    decreases n,
{
    if n == 0 {
        Seq::empty()
    } else {
        let g = groups[n - 1];
        let cv = column_views(g.columns@);
        group_rows(groups, (n - 1) as nat) + shown_rows(cv, g.extras@, row_count(cv))
    }
}

fn all_rows(groups: &[RowGroup]) -> (r: Vec<JsonValue>)
    ensures
        json_views(r@) == group_rows(groups@, groups@.len()),
{
    let mut out: Vec<JsonValue> = Vec::new();
    let mut g: usize = 0;
    proof {
        assert(json_views(out@) =~= Seq::<Json>::empty());
    }
    while g < groups.len()
        invariant
            g <= groups@.len(),
            json_views(out@) == group_rows(groups@, g as nat),
        decreases groups@.len() - g,
    {
        let group = &groups[g];
        let ghost cv = column_views(group.columns@);
        let ghost start = json_views(out@);
        let n: usize = if group.columns.len() > 0 {
            group.columns[0].n_values
        } else {
            0
        };
        let mut i: usize = 0;
        proof {
            assert(group.columns@.len() > 0 ==> cv[0] == group.columns@[0]@);
            assert(start + shown_rows(cv, group.extras@, 0) =~= start);
        }
        while i < n
            invariant
                i <= n,
                n == row_count(cv),
                cv == column_views(group.columns@),
                json_views(out@) == start + shown_rows(cv, group.extras@, i as nat),
            decreases n - i,
        {
            let ghost before = json_views(out@);
            let row = make_row(&group.columns, &group.extras, i, true);
            let ghost rv = row@;
            out.push(row);
            proof {
                assert(json_views(out@) =~= before.push(rv));
                assert(shown_rows(cv, group.extras@, (i + 1) as nat) =~= shown_rows(
                    cv,
                    group.extras@,
                    i as nat,
                ).push(rv));
                assert(start + shown_rows(cv, group.extras@, i as nat).push(rv) =~= (start
                    + shown_rows(cv, group.extras@, i as nat)).push(rv));
            }
            i = i + 1;
        }
        g = g + 1;
    }
    out
}

/// Whether a row meets all predicates.
pub open spec fn meets_all(row: Json, preds: Seq<PredicateView>) -> bool {
    forall|i: int|
        0 <= i < preds.len() ==> predicate_holds(
            row,
            (#[trigger] preds[i]).col,
            preds[i].op,
            preds[i].value,
        )
}

fn row_meets_all(row: &JsonValue, preds: &Vec<(String, String, JsonValue)>) -> (r: bool)
    ensures
        r == meets_all(row@, predicate_views(preds@)),
{
    let ghost all = predicate_views(preds@);
    let mut i: usize = 0;
    while i < preds.len()
        invariant
            i <= preds@.len(),
            all == predicate_views(preds@),
            forall|k: int|
                0 <= k < i ==> predicate_holds(
                    row@,
                    (#[trigger] all[k]).col,
                    all[k].op,
                    all[k].value,
                ),
        decreases preds@.len() - i,
    {
        let ok = eval_predicate(row, &preds[i].0, &preds[i].1, &preds[i].2);
        proof {
            assert(ok == predicate_holds(
                row@,
                all[i as int].col,
                all[i as int].op,
                all[i as int].value,
            ));
        }
        if !ok {
            return false;
        }
        i = i + 1;
    }
    true
}

/// The rows that meet all predicates, in their order.
pub open spec fn rows_meeting(rows: Seq<Json>, preds: Seq<PredicateView>) -> Seq<Json>
    decreases rows.len(),
{
    if rows.len() == 0 {
        Seq::empty()
    } else {
        let prev = rows_meeting(rows.drop_last(), preds);
        if meets_all(rows.last(), preds) {
            prev.push(rows.last())
        } else {
            prev
        }
    }
}

fn retain_rows(rows: &Vec<JsonValue>, preds: &Vec<(String, String, JsonValue)>) -> (r: Vec<JsonValue>)
    ensures
        json_views(r@) == rows_meeting(json_views(rows@), predicate_views(preds@)),
{
    let ghost all = json_views(rows@);
    let mut out: Vec<JsonValue> = Vec::new();
    let mut i: usize = 0;
    proof {
        assert(all.take(0) =~= Seq::<Json>::empty());
        assert(json_views(out@) =~= Seq::<Json>::empty());
    }
    while i < rows.len()
        invariant
            i <= rows@.len(),
            all == json_views(rows@),
            json_views(out@) == rows_meeting(all.take(i as int), predicate_views(preds@)),
        decreases rows@.len() - i,
    {
        proof {
            assert(all.take(i as int + 1).drop_last() =~= all.take(i as int));
            assert(all.take(i as int + 1).last() == rows@[i as int]@);
        }
        if row_meets_all(&rows[i], preds) {
            let ghost before = json_views(out@);
            out.push(copy_json(&rows[i]));
            proof {
                assert(json_views(out@) =~= before.push(rows@[i as int]@));
            }
        }
        i = i + 1;
    }
    proof {
        assert(all.take(i as int) =~= all);
    }
    out
}

/// The columns that a comma-separated list names: trimmed, without empty ones.
pub open spec fn listed(parts: Seq<Seq<char>>) -> Seq<Seq<char>>
    decreases parts.len(),
{
    if parts.len() == 0 {
        Seq::empty()
    } else {
        let prev = listed(parts.drop_last());
        let t = trimmed(parts.last());
        if t.len() == 0 {
            prev
        } else {
            prev.push(t)
        }
    }
}

fn read_list(s: &str) -> (r: Vec<String>)
    ensures
        text_views(r@) == listed(split(s@, ',')),
{
    let chars = chars_of(s);
    let parts = split_chars(&chars, ',');
    let ghost pv = char_views(parts@);
    let mut out: Vec<String> = Vec::new();
    let mut i: usize = 0;
    proof {
        assert(pv.take(0) =~= Seq::<Seq<char>>::empty());
        assert(text_views(out@) =~= Seq::<Seq<char>>::empty());
    }
    while i < parts.len()
        invariant
            i <= parts@.len(),
            pv == char_views(parts@),
            text_views(out@) == listed(pv.take(i as int)),
        decreases parts@.len() - i,
    {
        proof {
            assert(pv.take(i as int + 1).drop_last() =~= pv.take(i as int));
            assert(pv.take(i as int + 1).last() == parts@[i as int]@);
        }
        let t = trim_chars(&parts[i]);
        if t.len() > 0 {
            let ghost before = text_views(out@);
            out.push(text_of(&t));
            proof {
                assert(text_views(out@) =~= before.push(t@));
            }
        }
        i = i + 1;
    }
    proof {
        assert(pv.take(i as int) =~= pv);
    }
    out
}

/// The named columns of a row, in the order of the names; a missing one is null.
pub open spec fn projected_fields(row: Json, cols: Seq<Seq<char>>) -> Seq<(Seq<char>, Json)>
    decreases cols.len(),
{
    if cols.len() == 0 {
        Seq::empty()
    } else {
        let c = cols.last();
        put(
            projected_fields(row, cols.drop_last()),
            c,
            match member(row, c) {
                Some(v) => v,
                None => Json::Null,
            },
        )
    }
}

/// The row with the named columns only. What is no object stays as it is.
pub open spec fn projected_row(row: Json, cols: Seq<Seq<char>>) -> Json {
    if row is Object {
        Json::Object(projected_fields(row, cols))
    } else {
        row
    }
}

fn project_row(row: &JsonValue, cols: &Vec<String>) -> (r: JsonValue)
    ensures
        r@ == projected_row(row@, text_views(cols@)),
{
    match row {
        JsonValue::Object(_) => {},
        _ => {
            return copy_json(row);
        },
    }
    let ghost all = text_views(cols@);
    let mut fields: Vec<(String, JsonValue)> = Vec::new();
    let mut i: usize = 0;
    proof {
        assert(all.take(0) =~= Seq::<Seq<char>>::empty());
        assert(field_views(fields@) =~= Seq::<(Seq<char>, Json)>::empty());
    }
    while i < cols.len()
        invariant
            i <= cols@.len(),
            all == text_views(cols@),
            field_views(fields@) == projected_fields(row@, all.take(i as int)),
        decreases cols@.len() - i,
    {
        proof {
            assert(all.take(i as int + 1).drop_last() =~= all.take(i as int));
            assert(all.take(i as int + 1).last() == all[i as int]);
        }
        let v = match row.get(&cols[i]) {
            Some(x) => copy_json(x),
            None => JsonValue::Null,
        };
        put_field(&mut fields, &cols[i], v);
        i = i + 1;
    }
    proof {
        assert(all.take(i as int) =~= all);
        lemma_object_view(fields);
    }
    JsonValue::Object(fields)
}

pub open spec fn projected_rows(rows: Seq<Json>, cols: Seq<Seq<char>>) -> Seq<Json> {
    Seq::new(rows.len(), |i: int| projected_row(rows[i], cols))
}

fn project_rows(rows: &Vec<JsonValue>, cols: &Vec<String>) -> (r: Vec<JsonValue>)
    ensures
        json_views(r@) == projected_rows(json_views(rows@), text_views(cols@)),
{
    let ghost want = projected_rows(json_views(rows@), text_views(cols@));
    let mut out: Vec<JsonValue> = Vec::new();
    let mut i: usize = 0;
    proof {
        assert(json_views(out@) =~= want.take(0));
    }
    while i < rows.len()
        invariant
            i <= rows@.len(),
            want == projected_rows(json_views(rows@), text_views(cols@)),
            json_views(out@) == want.take(i as int),
        decreases rows@.len() - i,
    {
        let ghost before = json_views(out@);
        let row = project_row(&rows[i], cols);
        let ghost rv = row@;
        out.push(row);
        proof {
            assert(json_views(out@) =~= before.push(rv));
            assert(want.take(i as int + 1) =~= want.take(i as int).push(want[i as int]));
        }
        i = i + 1;
    }
    proof {
        assert(want.take(i as int) =~= want);
    }
    out
}

/// A text that is there and not blank.
pub open spec fn given(s: Option<&str>) -> Option<Seq<char>> {
    match s {
        Some(x) => if trimmed(x@).len() > 0 {
            Some(x@)
        } else {
            None
        },
        None => None,
    }
}

/// The rows under a column list and a limit.
pub open spec fn cut_rows(rows: Seq<Json>, columns: Option<Seq<char>>, limit: Option<usize>) -> Seq<Json> {
    let p = match columns {
        Some(c) => projected_rows(rows, listed(split(c, ','))),
        None => rows,
    };
    match limit {
        Some(n) => if n < p.len() {
            p.take(n as int)
        } else {
            p
        },
        None => p,
    }
}

/// The rows of the groups that the WHERE clause accepts, under the column list
/// and the limit; or what is wrong with the clause.
pub open spec fn rows_read(
    groups: Seq<RowGroup>,
    filter: Option<Seq<char>>,
    columns: Option<Seq<char>>,
    limit: Option<usize>,
    floats: FloatTable,
) -> Result<Seq<Json>, Seq<char>> {
    let rows = group_rows(groups, groups.len());
    match filter {
        None => Ok(cut_rows(rows, columns, limit)),
        Some(w) => match clause_of(w, floats) {
            Err(e) => Err(e),
            Ok(preds) => Ok(cut_rows(rows_meeting(rows, preds), columns, limit)),
        },
    }
}

fn not_blank(s: &str) -> (r: bool)
    ensures
        r == (trimmed(s@).len() > 0),
{
    let chars = chars_of(s);
    trim_chars(&chars).len() > 0
}

/// Reads the rows of a collection's row groups.
pub fn read_rows_as_json(
    groups: &[RowGroup],
    where_filter: Option<&str>,
    columns: Option<&str>,
    limit: Option<usize>,
    floats: &FloatTable,
) -> (r: Result<Vec<JsonValue>, String>)
    ensures
        match r {
            Ok(rows) => rows_read(groups@, given(where_filter), given(columns), limit, *floats) == Ok::<
                Seq<Json>,
                Seq<char>,
            >(json_views(rows@)),
            Err(e) => rows_read(groups@, given(where_filter), given(columns), limit, *floats) == Err::<
                Seq<Json>,
                Seq<char>,
            >(e@),
        },
{
    let mut rows = all_rows(groups);
    if let Some(w) = where_filter {
        if not_blank(w) {
            match parse_where_clause(w, floats) {
                Ok(preds) => {
                    rows = retain_rows(&rows, &preds);
                },
                Err(e) => {
                    return Err(e);
                },
            }
        }
    }
    if let Some(c) = columns {
        if not_blank(c) {
            let list = read_list(c);
            rows = project_rows(&rows, &list);
        }
    }
    if let Some(n) = limit {
        let ghost before = json_views(rows@);
        if n < rows.len() {
            rows.truncate(n);
            proof {
                assert(json_views(rows@) =~= before.take(n as int));
            }
        }
    }
    Ok(rows)
}

/// With a limit no more rows come than it says.
pub proof fn limit_is_kept(rows: Seq<Json>, columns: Option<Seq<char>>, limit: usize)
    ensures
        cut_rows(rows, columns, Some(limit)).len() <= limit,
        cut_rows(rows, columns, Some(limit)).len() <= rows.len(),
{
}

} // verus!
