//! From rows to typed columns.

use vstd::prelude::*;
use vstd::string::*;
use crate::intern::Interner;
use crate::json::{
    copy_json, field_views, float_of, i64_of, json_shown, json_text, json_views, lemma_array_view,
    lemma_object_view, member, Json, JsonNumber, JsonValue, Number,
};
use crate::rows::{json_or_null, read_json_or_null};
use crate::text::{chars_of, copy_text, decimal, push_chars, text_of, text_views, write_decimal};
use crate::typed::{TypedColumn, TypedView};

verus! {

/// A whole number in the signed range.
pub open spec fn is_int(v: Json) -> bool {
    i64_of(v) is Some
}

/// Any other number.
pub open spec fn is_float(v: Json) -> bool {
    v is Number && i64_of(v) is None
}

pub open spec fn any_int(values: Seq<Json>) -> bool {
    exists|i: int| 0 <= i < values.len() && is_int(#[trigger] values[i])
}

pub open spec fn any_float(values: Seq<Json>) -> bool {
    exists|i: int| 0 <= i < values.len() && is_float(#[trigger] values[i])
}

pub open spec fn any_text(values: Seq<Json>) -> bool {
    exists|i: int| 0 <= i < values.len() && (#[trigger] values[i]) is String
}

pub open spec fn any_bool(values: Seq<Json>) -> bool {
    exists|i: int| 0 <= i < values.len() && (#[trigger] values[i]) is Bool
}

pub open spec fn any_other(values: Seq<Json>) -> bool {
    exists|i: int|
        0 <= i < values.len() && ((#[trigger] values[i]) is Array || values[i] is Object)
}

/// A value as a text: a text as it is, null as nothing, else its JSON text.
pub open spec fn plain_text(v: Json) -> Seq<char> {
    match v {
        Json::String(s) => s,
        Json::Null => Seq::empty(),
        _ => json_shown(v),
    }
}

pub open spec fn as_texts(values: Seq<Json>) -> Seq<Seq<char>> {
    Seq::new(values.len(), |i: int| plain_text(values[i]))
}

/// Numbers as floats; anything else as zero.
pub open spec fn as_floats(values: Seq<Json>) -> Seq<u64> {
    Seq::new(
        values.len(),
        |i: int|
            match float_of(values[i]) {
                Some(f) => f,
                None => 0u64,
            },
    )
}

/// Whole numbers; anything else as zero.
pub open spec fn as_ints(values: Seq<Json>) -> Seq<i64> {
    Seq::new(
        values.len(),
        |i: int|
            match i64_of(values[i]) {
                Some(n) => n,
                None => 0i64,
            },
    )
}

/// Booleans; anything else as false.
pub open spec fn as_bools(values: Seq<Json>) -> Seq<bool> {
    Seq::new(values.len(), |i: int| values[i] == Json::Bool(true))
}

/// The column that suits the values: whole numbers, numbers, booleans where
/// all values but nulls are of that kind; texts for anything else.
pub open spec fn inferred(values: Seq<Json>) -> TypedView {
    if any_other(values) || any_text(values) || (any_bool(values) && (any_int(values) || any_float(
        values,
    ))) {
        TypedView::String(as_texts(values))
    } else if any_float(values) {
        TypedView::Float64(as_floats(values))
    } else if any_int(values) {
        TypedView::Int64(as_ints(values))
    } else if any_bool(values) {
        TypedView::Boolean(as_bools(values))
    } else {
        TypedView::String(as_texts(values))
    }
}

fn text_of_value(v: &JsonValue) -> (r: String)
    ensures
        r@ == plain_text(v@),
{
    match v {
        JsonValue::String(s) => copy_text(s),
        JsonValue::Null => String::new(),
        _ => json_text(v),
    }
}

fn texts_of(values: &Vec<JsonValue>) -> (r: Vec<String>)
    ensures
        text_views(r@) == as_texts(json_views(values@)),
{
    let ghost want = as_texts(json_views(values@));
    let mut out: Vec<String> = Vec::new();
    let mut i: usize = 0;
    proof {
        assert(text_views(out@) =~= want.take(0));
    }
    while i < values.len()
        invariant
            i <= values@.len(),
            want == as_texts(json_views(values@)),
            text_views(out@) == want.take(i as int),
        decreases values@.len() - i,
    {
        let ghost before = text_views(out@);
        let t = text_of_value(&values[i]);
        let ghost tv = t@;
        out.push(t);
        proof {
            assert(text_views(out@) =~= before.push(tv));
            assert(want.take(i as int + 1) =~= want.take(i as int).push(want[i as int]));
        }
        i = i + 1;
    }
    proof {
        assert(want.take(i as int) =~= want);
    }
    out
}

fn floats_of(values: &Vec<JsonValue>) -> (r: Vec<u64>)
    ensures
        r@ == as_floats(json_views(values@)),
{
    let ghost want = as_floats(json_views(values@));
    let mut out: Vec<u64> = Vec::new();
    let mut i: usize = 0;
    while i < values.len()
        invariant
            i <= values@.len(),
            want == as_floats(json_views(values@)),
            out@ == want.take(i as int),
        decreases values@.len() - i,
    {
        out.push(
            match values[i].as_float() {
                Some(f) => f,
                None => 0,
            },
        );
        proof {
            assert(want.take(i as int + 1) =~= want.take(i as int).push(want[i as int]));
        }
        i = i + 1;
    }
    proof {
        assert(want.take(i as int) =~= want);
    }
    out
}

fn ints_of(values: &Vec<JsonValue>) -> (r: Vec<i64>)
    ensures
        r@ == as_ints(json_views(values@)),
{
    let ghost want = as_ints(json_views(values@));
    let mut out: Vec<i64> = Vec::new();
    let mut i: usize = 0;
    while i < values.len()
        invariant
            i <= values@.len(),
            want == as_ints(json_views(values@)),
            out@ == want.take(i as int),
        decreases values@.len() - i,
    {
        out.push(
            match values[i].as_i64() {
                Some(n) => n,
                None => 0,
            },
        );
        proof {
            assert(want.take(i as int + 1) =~= want.take(i as int).push(want[i as int]));
        }
        i = i + 1;
    }
    proof {
        assert(want.take(i as int) =~= want);
    }
    out
}

fn bools_of(values: &Vec<JsonValue>) -> (r: Vec<bool>)
    ensures
        r@ == as_bools(json_views(values@)),
{
    let ghost want = as_bools(json_views(values@));
    let mut out: Vec<bool> = Vec::new();
    let mut i: usize = 0;
    while i < values.len()
        invariant
            i <= values@.len(),
            want == as_bools(json_views(values@)),
            out@ == want.take(i as int),
        decreases values@.len() - i,
    {
        out.push(
            match &values[i] {
                JsonValue::Bool(b) => *b,
                _ => false,
            },
        );
        proof {
            assert(want.take(i as int + 1) =~= want.take(i as int).push(want[i as int]));
        }
        i = i + 1;
    }
    proof {
        assert(want.take(i as int) =~= want);
    }
    out
}

/// Builds the column that suits the values.
pub fn build_typed_column(values: &Vec<JsonValue>) -> (r: TypedColumn)
    ensures
        r@ == inferred(json_views(values@)),
{
    let ghost all = json_views(values@);
    let mut has_int: bool = false;
    let mut has_float: bool = false;
    let mut has_text: bool = false;
    let mut has_bool: bool = false;
    let mut has_other: bool = false;
    let mut i: usize = 0;
    proof {
        assert(all.take(0) =~= Seq::<Json>::empty());
    }
    while i < values.len()
        invariant
            i <= values@.len(),
            all == json_views(values@),
            has_int == any_int(all.take(i as int)),
            has_float == any_float(all.take(i as int)),
            has_text == any_text(all.take(i as int)),
            has_bool == any_bool(all.take(i as int)),
            has_other == any_other(all.take(i as int)),
        decreases values@.len() - i,
    {
        proof {
            lemma_any_push(all, i as int);
            assert(all[i as int] == values@[i as int]@);
        }
        match &values[i] {
            JsonValue::Null => {},
            JsonValue::Bool(_) => {
                has_bool = true;
            },
            JsonValue::Number(_) => {
                if values[i].as_i64().is_some() {
                    has_int = true;
                } else {
                    has_float = true;
                }
            },
            JsonValue::String(_) => {
                has_text = true;
            },
            JsonValue::Array(_) => {
                has_other = true;
            },
            JsonValue::Object(_) => {
                has_other = true;
            },
        }
        i = i + 1;
    }
    proof {
        assert(all.take(i as int) =~= all);
    }
    if has_other || has_text || (has_bool && (has_int || has_float)) {
        TypedColumn::String(texts_of(values))
    } else if has_float {
        TypedColumn::Float64(floats_of(values))
    } else if has_int {
        TypedColumn::Int64(ints_of(values))
    } else if has_bool {
        TypedColumn::Boolean(bools_of(values))
    } else {
        TypedColumn::String(texts_of(values))
    }
}

proof fn lemma_any_push(all: Seq<Json>, i: int)
    requires
        0 <= i < all.len(),
    ensures
        any_int(all.take(i + 1)) == (any_int(all.take(i)) || is_int(all[i])),
        any_float(all.take(i + 1)) == (any_float(all.take(i)) || is_float(all[i])),
        any_text(all.take(i + 1)) == (any_text(all.take(i)) || all[i] is String),
        any_bool(all.take(i + 1)) == (any_bool(all.take(i)) || all[i] is Bool),
        any_other(all.take(i + 1)) == (any_other(all.take(i)) || all[i] is Array || all[i] is Object),
{
    let a = all.take(i);
    let b = all.take(i + 1);
    assert(b[i] == all[i]);
    assert forall|k: int| 0 <= k < i implies a[k] == b[k] by {}
    if any_int(a) {
        let k = choose|k: int| 0 <= k < a.len() && is_int(#[trigger] a[k]);
        assert(is_int(b[k]));
    }
    if any_float(a) {
        let k = choose|k: int| 0 <= k < a.len() && is_float(#[trigger] a[k]);
        assert(is_float(b[k]));
    }
    if any_text(a) {
        let k = choose|k: int| 0 <= k < a.len() && (#[trigger] a[k]) is String;
        assert(b[k] is String);
    }
    if any_bool(a) {
        let k = choose|k: int| 0 <= k < a.len() && (#[trigger] a[k]) is Bool;
        assert(b[k] is Bool);
    }
    if any_other(a) {
        let k = choose|k: int|
            0 <= k < a.len() && ((#[trigger] a[k]) is Array || a[k] is Object);
        assert(b[k] is Array || b[k] is Object);
    }
    if any_int(b) {
        let k = choose|k: int| 0 <= k < b.len() && is_int(#[trigger] b[k]);
        assert(k < i ==> is_int(a[k]));
    }
    if any_float(b) {
        let k = choose|k: int| 0 <= k < b.len() && is_float(#[trigger] b[k]);
        assert(k < i ==> is_float(a[k]));
    }
    if any_text(b) {
        let k = choose|k: int| 0 <= k < b.len() && (#[trigger] b[k]) is String;
        assert(k < i ==> a[k] is String);
    }
    if any_bool(b) {
        let k = choose|k: int| 0 <= k < b.len() && (#[trigger] b[k]) is Bool;
        assert(k < i ==> a[k] is Bool);
    }
    if any_other(b) {
        let k = choose|k: int|
            0 <= k < b.len() && ((#[trigger] b[k]) is Array || b[k] is Object);
        assert(k < i ==> a[k] is Array || a[k] is Object);
    }
}

/// The names so far and those of the fields that are new.
pub open spec fn names_with(names: Seq<Seq<char>>, fields: Seq<(Seq<char>, Json)>) -> Seq<Seq<char>>
    decreases fields.len(),
{
    if fields.len() == 0 {
        names
    } else {
        let prev = names_with(names, fields.drop_last());
        if prev.contains(fields.last().0) {
            prev
        } else {
            prev.push(fields.last().0)
        }
    }
}

/// The column names of the rows, in the order in which they first appear.
pub open spec fn names_of(rows: Seq<Json>) -> Seq<Seq<char>>
    decreases rows.len(),
{
    if rows.len() == 0 {
        Seq::empty()
    } else {
        let prev = names_of(rows.drop_last());
        match rows.last() {
            Json::Object(fields) => names_with(prev, fields),
            _ => prev,
        }
    }
}

/// The values of a column; null where a row does not have it.
pub open spec fn values_of(rows: Seq<Json>, name: Seq<char>) -> Seq<Json> {
    Seq::new(
        rows.len(),
        |i: int|
            match member(rows[i], name) {
                Some(v) => v,
                None => Json::Null,
            },
    )
}

/// The typed columns of the rows.
pub open spec fn typed_columns(rows: Seq<Json>) -> Seq<(Seq<char>, TypedView)> {
    let names = names_of(rows);
    Seq::new(names.len(), |i: int| (names[i], inferred(values_of(rows, names[i]))))
}

pub open spec fn typed_views(v: Seq<(String, TypedColumn)>) -> Seq<(Seq<char>, TypedView)> {
    Seq::new(v.len(), |i: int| (v[i].0@, v[i].1@))
}

/// Collects the column names of rows.
pub fn collect_names(rows: &[JsonValue]) -> (r: Interner)
    ensures
        r.wf(),
        r.keys() == names_of(json_views(rows@)),
{
    let ghost all = json_views(rows@);
    let mut names = Interner::new();
    let mut i: usize = 0;
    proof {
        assert(all.take(0) =~= Seq::<Json>::empty());
    }
    while i < rows.len()
        invariant
            i <= rows@.len(),
            all == json_views(rows@),
            names.wf(),
            names.keys() == names_of(all.take(i as int)),
        decreases rows@.len() - i,
    {
        proof {
            assert(all.take(i as int + 1).drop_last() =~= all.take(i as int));
            assert(all.take(i as int + 1).last() == rows@[i as int]@);
        }
        if let JsonValue::Object(fields) = &rows[i] {
            proof {
                lemma_object_view(*fields);
            }
            let ghost fv = field_views(fields@);
            let ghost start = names.keys();
            let mut k: usize = 0;
            proof {
                assert(fv.take(0) =~= Seq::<(Seq<char>, Json)>::empty());
            }
            while k < fields.len()
                invariant
                    k <= fields@.len(),
                    fv == field_views(fields@),
                    names.wf(),
                    names.keys() == names_with(start, fv.take(k as int)),
                decreases fields@.len() - k,
            {
                proof {
                    assert(fv.take(k as int + 1).drop_last() =~= fv.take(k as int));
                    assert(fv.take(k as int + 1).last() == fv[k as int]);
                }
                if names.get(&fields[k].0).is_none() {
                    names.add(&fields[k].0);
                }
                k = k + 1;
            }
            proof {
                assert(fv.take(k as int) =~= fv);
            }
        }
        i = i + 1;
    }
    proof {
        assert(all.take(i as int) =~= all);
    }
    names
}

fn column_values(rows: &[JsonValue], name: &str) -> (r: Vec<JsonValue>)
    ensures
        json_views(r@) == values_of(json_views(rows@), name@),
{
    let ghost want = values_of(json_views(rows@), name@);
    let mut out: Vec<JsonValue> = Vec::new();
    let mut i: usize = 0;
    proof {
        assert(json_views(out@) =~= want.take(0));
    }
    while i < rows.len()
        invariant
            i <= rows@.len(),
            want == values_of(json_views(rows@), name@),
            json_views(out@) == want.take(i as int),
        decreases rows@.len() - i,
    {
        let ghost before = json_views(out@);
        let v = match rows[i].get(name) {
            Some(x) => copy_json(x),
            None => JsonValue::Null,
        };
        let ghost vv = v@;
        out.push(v);
        proof {
            assert(json_views(out@) =~= before.push(vv));
            assert(want.take(i as int + 1) =~= want.take(i as int).push(want[i as int]));
        }
        i = i + 1;
    }
    proof {
        assert(want.take(i as int) =~= want);
    }
    out
}

/// Infers typed columns from rows.
pub fn json_to_typed_columns(rows: &[JsonValue]) -> (r: Vec<(String, TypedColumn)>)
    ensures
        typed_views(r@) == typed_columns(json_views(rows@)),
{
    let names = collect_names(rows);
    let ghost want = typed_columns(json_views(rows@));
    let mut out: Vec<(String, TypedColumn)> = Vec::new();
    let mut i: usize = 0;
    proof {
        assert(typed_views(out@) =~= want.take(0));
    }
    while i < names.len()
        invariant
            names.keys() == names_of(json_views(rows@)),
            want == typed_columns(json_views(rows@)),
            i <= names.keys().len(),
            typed_views(out@) == want.take(i as int),
        decreases names.keys().len() - i,
    {
        let ghost before = typed_views(out@);
        let values = column_values(rows, names.key(i));
        let col = build_typed_column(&values);
        let name = copy_text(names.key(i));
        let ghost c = (name@, col@);
        out.push((name, col));
        proof {
            assert(typed_views(out@) =~= before.push(c));
            assert(want.take(i as int + 1) =~= want.take(i as int).push(want[i as int]));
        }
        i = i + 1;
    }
    proof {
        assert(want.take(i as int) =~= want);
    }
    out
}

/// Every inferred column has a value for every row.
pub proof fn inferred_columns_are_full(rows: Seq<Json>, i: int)
    requires
        0 <= i < typed_columns(rows).len(),
    ensures
        typed_len(typed_columns(rows)[i].1) == rows.len(),
{
}

pub open spec fn typed_len(t: TypedView) -> nat {
    match t {
        TypedView::Int64(v) => v.len(),
        TypedView::Float64(v) => v.len(),
        TypedView::String(v) => v.len(),
        TypedView::Binary(v) => v.len(),
        TypedView::Variant(v) => v.len(),
        TypedView::Boolean(v) => v.len(),
        TypedView::Date(v) => v.len(),
        TypedView::Timestamp(v) => v.len(),
        TypedView::Vector(v) => v.len(),
    }
}

/// A column of a snapshot under way: its type by the first value that has one,
/// and the values of each type.
pub struct Scan {
    pub kind: u8,
    pub ints: Seq<i64>,
    pub floats: Seq<u64>,
    pub texts: Seq<Seq<char>>,
}

pub open spec fn kind_or(kind: u8, k: u8) -> u8 {
    if kind == 0 {
        k
    } else {
        kind
    }
}

/// One more cell. A cell without a value takes the default of the type.
pub open spec fn scan_step(s: Scan, cell: Option<Json>) -> Scan {
    match cell {
        Some(Json::Number(n)) => match i64_of(Json::Number(n)) {
            Some(i) => Scan { kind: kind_or(s.kind, 1), ints: s.ints.push(i), ..s },
            None => Scan {
                kind: kind_or(s.kind, 2),
                floats: s.floats.push(crate::json::number_float(n)),
                ..s
            },
        },
        Some(Json::String(t)) => Scan { kind: kind_or(s.kind, 3), texts: s.texts.push(t), ..s },
        _ => if s.kind == 1 {
            Scan { ints: s.ints.push(0), ..s }
        } else if s.kind == 2 {
            Scan { floats: s.floats.push(0), ..s }
        } else {
            Scan { kind: 3, texts: s.texts.push(Seq::empty()), ..s }
        },
    }
}

pub open spec fn scan_column(rows: Seq<Json>, name: Seq<char>) -> Scan
    decreases rows.len(),
{
    if rows.len() == 0 {
        Scan { kind: 0, ints: Seq::empty(), floats: Seq::empty(), texts: Seq::empty() }
    } else {
        scan_step(scan_column(rows.drop_last(), name), member(rows.last(), name))
    }
}

pub open spec fn scanned_column(s: Scan) -> TypedView {
    if s.kind == 1 {
        TypedView::Int64(s.ints)
    } else if s.kind == 2 {
        TypedView::Float64(s.floats)
    } else {
        TypedView::String(s.texts)
    }
}

/// The columns of a snapshot: those of the first row. There are none where a
/// row is no object.
pub open spec fn snapshot_columns(rows: Seq<Json>) -> Option<Seq<(Seq<char>, TypedView)>> {
    if rows.len() == 0 {
        Some(Seq::empty())
    } else {
        match rows[0] {
            Json::Object(fields) => if fields.len() == 0 {
                Some(Seq::empty())
            } else if exists|i: int| 0 <= i < rows.len() && !((#[trigger] rows[i]) is Object) {
                None
            } else {
                Some(
                    Seq::new(
                        fields.len(),
                        |i: int|
                            (fields[i].0, scanned_column(scan_column(rows, fields[i].0))),
                    ),
                )
            },
            _ => None,
        }
    }
}

fn scan_cells(rows: &[JsonValue], name: &str) -> (r: TypedColumn)
    ensures
        r@ == scanned_column(scan_column(json_views(rows@), name@)),
{
    let ghost all = json_views(rows@);
    let mut kind: u8 = 0;
    let mut ints: Vec<i64> = Vec::new();
    let mut floats: Vec<u64> = Vec::new();
    let mut texts: Vec<String> = Vec::new();
    let mut i: usize = 0;
    proof {
        assert(all.take(0) =~= Seq::<Json>::empty());
        assert(text_views(texts@) =~= Seq::<Seq<char>>::empty());
    }
    while i < rows.len()
        invariant
            i <= rows@.len(),
            all == json_views(rows@),
            kind <= 3,
            scan_column(all.take(i as int), name@) == (Scan {
                kind,
                ints: ints@,
                floats: floats@,
                texts: text_views(texts@),
            }),
        decreases rows@.len() - i,
    {
        proof {
            assert(all.take(i as int + 1).drop_last() =~= all.take(i as int));
            assert(all.take(i as int + 1).last() == rows@[i as int]@);
        }
        let ghost before = text_views(texts@);
        match rows[i].get(name) {
            Some(v) => match v {
                JsonValue::Number(n) => match v.as_i64() {
                    Some(x) => {
                        ints.push(x);
                        if kind == 0 {
                            kind = 1;
                        }
                    },
                    None => {
                        floats.push(crate::json::number_to_float(n));
                        if kind == 0 {
                            kind = 2;
                        }
                    },
                },
                JsonValue::String(s) => {
                    texts.push(copy_text(s));
                    proof {
                        assert(text_views(texts@) =~= before.push(s@));
                    }
                    if kind == 0 {
                        kind = 3;
                    }
                },
                _ => {
                    if kind == 1 {
                        ints.push(0);
                    } else if kind == 2 {
                        floats.push(0);
                    } else {
                        kind = 3;
                        texts.push(String::new());
                        proof {
                            assert(text_views(texts@) =~= before.push(Seq::empty()));
                        }
                    }
                },
            },
            None => {
                if kind == 1 {
                    ints.push(0);
                } else if kind == 2 {
                    floats.push(0);
                } else {
                    kind = 3;
                    texts.push(String::new());
                    proof {
                        assert(text_views(texts@) =~= before.push(Seq::empty()));
                    }
                }
            },
        }
        i = i + 1;
    }
    proof {
        assert(all.take(i as int) =~= all);
    }
    if kind == 1 {
        TypedColumn::Int64(ints)
    } else if kind == 2 {
        TypedColumn::Float64(floats)
    } else {
        TypedColumn::String(texts)
    }
}

/// The columns to write for a snapshot of the rows; `None` where a row is no
/// object.
pub fn write_rows_from_json(rows: &[JsonValue]) -> (r: Option<Vec<(String, TypedColumn)>>)
    ensures
        match r {
            Some(cols) => snapshot_columns(json_views(rows@)) == Some(typed_views(cols@)),
            None => snapshot_columns(json_views(rows@)) is None,
        },
{
    let ghost all = json_views(rows@);
    let mut out: Vec<(String, TypedColumn)> = Vec::new();
    proof {
        assert(typed_views(out@) =~= Seq::<(Seq<char>, TypedView)>::empty());
    }
    if rows.len() == 0 {
        return Some(out);
    }
    proof {
        assert(all[0] == rows@[0]@);
    }
    match &rows[0] {
        JsonValue::Object(fields) => {
            proof {
                lemma_object_view(*fields);
            }
            if fields.len() == 0 {
                return Some(out);
            }
            let mut k: usize = 0;
            while k < rows.len()
                invariant
                    k <= rows@.len(),
                    all == json_views(rows@),
                    rows@.len() > 0,
                    all[0] == Json::Object(field_views(fields@)),
                    fields@.len() > 0,
                    forall|m: int| 0 <= m < k ==> (#[trigger] all[m]) is Object,
                decreases rows@.len() - k,
            {
                proof {
                    assert(all[k as int] == rows@[k as int]@);
                }
                match &rows[k] {
                    JsonValue::Object(_) => {},
                    _ => {
                        proof {
                            assert(!(all[k as int] is Object));
                        }
                        return None;
                    },
                }
                k = k + 1;
            }
            let ghost fv = field_views(fields@);
            let ghost want = Seq::new(
                fv.len(),
                |i: int| (fv[i].0, scanned_column(scan_column(all, fv[i].0))),
            );
            let mut i: usize = 0;
            proof {
                assert(typed_views(out@) =~= want.take(0));
            }
            while i < fields.len()
                invariant
                    i <= fields@.len(),
                    all == json_views(rows@),
                    fv == field_views(fields@),
                    want == Seq::new(
                        fv.len(),
                        |i: int| (fv[i].0, scanned_column(scan_column(all, fv[i].0))),
                    ),
                    typed_views(out@) == want.take(i as int),
                decreases fields@.len() - i,
            {
                let ghost before = typed_views(out@);
                let col = scan_cells(rows, &fields[i].0);
                let name = copy_text(&fields[i].0);
                let ghost c = (name@, col@);
                out.push((name, col));
                proof {
                    assert(typed_views(out@) =~= before.push(c));
                    assert(want.take(i as int + 1) =~= want.take(i as int).push(want[i as int]));
                }
                i = i + 1;
            }
            proof {
                assert(want.take(i as int) =~= want);
            }
            Some(out)
        },
        _ => None,
    }
}

/// The values that the mask keeps; beyond the mask none is kept.
pub open spec fn masked<T>(s: Seq<T>, mask: Seq<bool>) -> Seq<T>
    decreases s.len(),
{
    if s.len() == 0 {
        Seq::empty()
    } else {
        let prev = masked(s.drop_last(), mask);
        if s.len() <= mask.len() && mask[s.len() - 1] {
            prev.push(s.last())
        } else {
            prev
        }
    }
}

pub(crate) fn keep_values<T>(v: Vec<T>, mask: &[bool]) -> (r: Vec<T>)
    ensures
        r@ == masked(v@, mask@),
{
    let ghost all = v@;
    let total: usize = v.len();
    let mut out: Vec<T> = Vec::new();
    let mut i: usize = 0;
    proof {
        assert(all.take(0) =~= Seq::<T>::empty());
    }
    for x in it: v
        invariant
            it.seq() == all,
            i == it.index(),
            i <= all.len(),
            all.len() == total,
            out@ == masked(all.take(i as int), mask@),
    {
        proof {
            assert(all.take(i as int + 1).drop_last() =~= all.take(i as int));
            assert(all.take(i as int + 1).last() == all[i as int]);
        }
        if i < mask.len() && mask[i] {
            out.push(x);
        }
        i = i + 1;
    }
    proof {
        assert(all.take(all.len() as int) =~= all);
    }
    out
}

/// A column holds the values of another that the mask keeps.
pub open spec fn column_masked(col: TypedColumn, r: TypedColumn, mask: Seq<bool>) -> bool {
    match (col, r) {
        (TypedColumn::Int64(v), TypedColumn::Int64(w)) => w@ == masked(v@, mask),
        (TypedColumn::Float64(v), TypedColumn::Float64(w)) => w@ == masked(v@, mask),
        (TypedColumn::String(v), TypedColumn::String(w)) => w@ == masked(v@, mask),
        (TypedColumn::Binary(v), TypedColumn::Binary(w)) => w@ == masked(v@, mask),
        (TypedColumn::Variant(v), TypedColumn::Variant(w)) => w@ == masked(v@, mask),
        (TypedColumn::Boolean(v), TypedColumn::Boolean(w)) => w@ == masked(v@, mask),
        (TypedColumn::Date(v), TypedColumn::Date(w)) => w@ == masked(v@, mask),
        (TypedColumn::Timestamp(v), TypedColumn::Timestamp(w)) => w@ == masked(v@, mask),
        (TypedColumn::Vector(v), TypedColumn::Vector(w)) => w@ == masked(v@, mask),
        _ => false,
    }
}

/// Keeps the values that the mask marks.
pub fn filter_column(col: TypedColumn, keep_mask: &[bool]) -> (r: TypedColumn)
    ensures
        column_masked(col, r, keep_mask@),
{
    match col {
        TypedColumn::Int64(v) => TypedColumn::Int64(keep_values(v, keep_mask)),
        TypedColumn::Float64(v) => TypedColumn::Float64(keep_values(v, keep_mask)),
        TypedColumn::String(v) => TypedColumn::String(keep_values(v, keep_mask)),
        TypedColumn::Binary(v) => TypedColumn::Binary(keep_values(v, keep_mask)),
        TypedColumn::Variant(v) => TypedColumn::Variant(keep_values(v, keep_mask)),
        TypedColumn::Boolean(v) => TypedColumn::Boolean(keep_values(v, keep_mask)),
        TypedColumn::Date(v) => TypedColumn::Date(keep_values(v, keep_mask)),
        TypedColumn::Timestamp(v) => TypedColumn::Timestamp(keep_values(v, keep_mask)),
        TypedColumn::Vector(v) => TypedColumn::Vector(keep_values(v, keep_mask)),
    }
}

/// The JSON text of a float cell; a vector's numbers as floats with their JSON
/// texts.
pub struct CellExtra {
    pub float_text: Option<String>,
    pub vector: Vec<Option<(u64, String)>>,
}

pub open spec fn vector_numbers(v: Seq<Option<(u64, String)>>) -> Seq<Json> {
    Seq::new(
        v.len(),
        |i: int|
            match v[i] {
                Some((bits, text)) => Json::Number(Number::Float(bits, text@)),
                None => Json::Null,
            },
    )
}

/// One value of a column as JSON; null where there is none.
pub open spec fn cell_of(col: TypedColumn, i: int, extra: CellExtra) -> Json {
    if i >= col.len_spec() {
        Json::Null
    } else {
        match col {
            TypedColumn::Int64(v) => Json::Number(Number::Int(v@[i])),
            TypedColumn::Date(v) => Json::Number(Number::Int(v@[i])),
            TypedColumn::Timestamp(v) => Json::Number(Number::Int(v@[i])),
            TypedColumn::Float64(v) => match extra.float_text {
                Some(t) => Json::Number(Number::Float(v@[i], t@)),
                None => Json::Null,
            },
            TypedColumn::String(v) => Json::String(v@[i]@),
            TypedColumn::Binary(v) => Json::String(
                "<"@ + decimal(v@[i]@.len()) + " bytes>"@,
            ),
            TypedColumn::Variant(v) => json_or_null(v@[i]@),
            TypedColumn::Boolean(v) => Json::Bool(v@[i]),
            TypedColumn::Vector(_) => Json::Array(vector_numbers(extra.vector@)),
        }
    }
}

fn numbers_of_vector(v: &Vec<Option<(u64, String)>>) -> (r: JsonValue)
    ensures
        r@ == Json::Array(vector_numbers(v@)),
{
    let ghost want = vector_numbers(v@);
    let mut out: Vec<JsonValue> = Vec::new();
    let mut i: usize = 0;
    proof {
        assert(json_views(out@) =~= want.take(0));
    }
    while i < v.len()
        invariant
            i <= v@.len(),
            want == vector_numbers(v@),
            json_views(out@) == want.take(i as int),
        decreases v@.len() - i,
    {
        let ghost before = json_views(out@);
        let x = match &v[i] {
            Some((bits, text)) => JsonValue::Number(JsonNumber::Float(*bits, copy_text(text))),
            None => JsonValue::Null,
        };
        let ghost xv = x@;
        out.push(x);
        proof {
            assert(json_views(out@) =~= before.push(xv));
            assert(want.take(i as int + 1) =~= want.take(i as int).push(want[i as int]));
        }
        i = i + 1;
    }
    proof {
        assert(want.take(i as int) =~= want);
        lemma_array_view(out);
    }
    JsonValue::Array(out)
}

/// Reads one value of a column as JSON.
pub fn extract_cell(col: &TypedColumn, idx: usize, extra: &CellExtra) -> (r: JsonValue)
    ensures
        r@ == cell_of(*col, idx as int, *extra),
{
    if idx >= col.len() {
        return JsonValue::Null;
    }
    match col {
        TypedColumn::Int64(v) => JsonValue::Number(JsonNumber::Int(v[idx])),
        TypedColumn::Date(v) => JsonValue::Number(JsonNumber::Int(v[idx])),
        TypedColumn::Timestamp(v) => JsonValue::Number(JsonNumber::Int(v[idx])),
        TypedColumn::Float64(v) => match &extra.float_text {
            Some(t) => JsonValue::Number(JsonNumber::Float(v[idx], copy_text(t))),
            None => JsonValue::Null,
        },
        TypedColumn::String(v) => JsonValue::String(copy_text(&v[idx])),
        TypedColumn::Binary(v) => {
            let mut out = chars_of("<");
            let d = write_decimal(v[idx].len() as u64);
            push_chars(&mut out, &d);
            let tail = chars_of(" bytes>");
            push_chars(&mut out, &tail);
            JsonValue::String(text_of(&out))
        },
        TypedColumn::Variant(v) => read_json_or_null(&v[idx]),
        TypedColumn::Boolean(v) => JsonValue::Bool(v[idx]),
        TypedColumn::Vector(_) => numbers_of_vector(&extra.vector),
    }
}

} // verus!
