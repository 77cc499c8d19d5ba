//! Values that a caller hands in: as JSON, and as typed columns.

use vstd::prelude::*;
use vstd::string::*;
use crate::bytes::copy_bytes;
use crate::json::{copy_json, json_shown, json_text, kept_by_text, reads_as, Json, JsonNumber, JsonValue, Number};
use crate::media::{base64_encode, base64_text};
use crate::rows::json_or_null;
use crate::text::{chars_of, copy_text, push_chars, text_of, text_views};
use crate::typed::{TypedColumn, TypedView};
use crate::types::byte_views;

verus! {

/// A value of a caller. A float comes with its JSON text, which a NaN and the
/// infinities do not have.
#[derive(Debug, PartialEq)]
pub enum HostValue {
    Nothing,
    Bool(bool),
    Int(i64),
    Float(u64, Option<String>),
    Bytes(Vec<u8>),
    Text(String),
    /// A list or a mapping, as JSON.
    Other(JsonValue),
}

/// A value as JSON: bytes as base64 under a mark, booleans as numbers.
pub open spec fn host_json(v: HostValue) -> Json {
    match v {
        HostValue::Nothing => Json::Null,
        HostValue::Bool(b) => Json::Number(
            Number::Int(
                if b {
                    1
                } else {
                    0
                },
            ),
        ),
        HostValue::Int(i) => Json::Number(Number::Int(i)),
        HostValue::Float(bits, Some(text)) => Json::Number(Number::Float(bits, text@)),
        HostValue::Float(_, None) => Json::Null,
        HostValue::Bytes(b) => Json::String("__bin_b64__:"@ + base64_text(b@)),
        HostValue::Text(s) => Json::String(s@),
        HostValue::Other(j) => j@,
    }
}

/// The kinds of values that a column is typed by.
#[derive(Debug, Clone, Copy, PartialEq, Eq, Structural)]
pub enum Kind {
    Nothing,
    Bool,
    Int,
    Float,
    Bytes,
    Text,
    Other,
}

/// The kind of a value.
pub open spec fn kind_of(v: HostValue) -> Kind {
    match v {
        HostValue::Nothing => Kind::Nothing,
        HostValue::Bool(_) => Kind::Bool,
        HostValue::Int(_) => Kind::Int,
        HostValue::Float(_, _) => Kind::Float,
        HostValue::Bytes(_) => Kind::Bytes,
        HostValue::Text(_) => Kind::Text,
        HostValue::Other(_) => Kind::Other,
    }
}

/// The one kind of all values that are there: nothing where none is, and no
/// kind where they differ.
pub open spec fn common_kind(values: Seq<HostValue>) -> Option<Kind>
    decreases values.len(),
{
    if values.len() == 0 {
        Some(Kind::Nothing)
    } else {
        let k = kind_of(values.last());
        match common_kind(values.drop_last()) {
            None => None,
            Some(Kind::Nothing) => Some(k),
            Some(p) => if k == Kind::Nothing || k == p {
                Some(p)
            } else {
                None
            },
        }
    }
}

pub open spec fn host_int(v: HostValue) -> i64 {
    match v {
        HostValue::Int(i) => i,
        _ => 0,
    }
}

pub open spec fn host_float(v: HostValue) -> u64 {
    match v {
        HostValue::Float(bits, _) => bits,
        _ => 0,
    }
}

pub open spec fn host_text(v: HostValue) -> Seq<char> {
    match v {
        HostValue::Text(s) => s@,
        _ => Seq::empty(),
    }
}

pub open spec fn host_bytes(v: HostValue) -> Seq<u8> {
    match v {
        HostValue::Bytes(b) => b@,
        _ => Seq::empty(),
    }
}

/// The column that values make: numbers, floats, texts or bytes where all values
/// that are there are such, with a default for those that are not; else each as
/// its JSON text.
pub open spec fn host_column(values: Seq<HostValue>) -> TypedView {
    match common_kind(values) {
        Some(Kind::Nothing) => TypedView::Int64(Seq::new(values.len(), |i: int| 0i64)),
        Some(Kind::Int) => TypedView::Int64(Seq::new(values.len(), |i: int| host_int(values[i]))),
        Some(Kind::Float) => TypedView::Float64(
            Seq::new(values.len(), |i: int| host_float(values[i])),
        ),
        Some(Kind::Text) => TypedView::String(Seq::new(values.len(), |i: int| host_text(values[i]))),
        Some(Kind::Bytes) => TypedView::Binary(
            Seq::new(values.len(), |i: int| host_bytes(values[i])),
        ),
        _ => TypedView::Variant(
            Seq::new(values.len(), |i: int| json_shown(host_json(values[i]))),
        ),
    }
}

/// Turns a value into JSON.
pub fn python_to_json(v: &HostValue) -> (r: JsonValue)
    ensures
        r@ == host_json(*v),
{
    match v {
        HostValue::Nothing => JsonValue::Null,
        HostValue::Bool(b) => JsonValue::Number(
            JsonNumber::Int(
                if *b {
                    1
                } else {
                    0
                },
            ),
        ),
        HostValue::Int(i) => JsonValue::Number(JsonNumber::Int(*i)),
        HostValue::Float(bits, text) => match text {
            Some(t) => JsonValue::Number(JsonNumber::Float(*bits, copy_text(t))),
            None => JsonValue::Null,
        },
        HostValue::Bytes(b) => {
            let mut out = chars_of("__bin_b64__:");
            let t = base64_encode(b);
            let c = chars_of(&t);
            push_chars(&mut out, &c);
            JsonValue::String(text_of(&out))
        },
        HostValue::Text(s) => JsonValue::String(copy_text(s)),
        HostValue::Other(j) => copy_json(j),
    }
}

fn kind(v: &HostValue) -> (r: Kind)
    ensures
        r == kind_of(*v),
{
    match v {
        HostValue::Nothing => Kind::Nothing,
        HostValue::Bool(_) => Kind::Bool,
        HostValue::Int(_) => Kind::Int,
        HostValue::Float(_, _) => Kind::Float,
        HostValue::Bytes(_) => Kind::Bytes,
        HostValue::Text(_) => Kind::Text,
        HostValue::Other(_) => Kind::Other,
    }
}

fn find_common_kind(values: &Vec<HostValue>) -> (r: Option<Kind>)
    ensures
        r == common_kind(values@),
{
    let mut found: Option<Kind> = Some(Kind::Nothing);
    let mut i: usize = 0;
    proof {
        assert(values@.take(0) =~= Seq::<HostValue>::empty());
    }
    while i < values.len()
        invariant
            i <= values@.len(),
            found == common_kind(values@.take(i as int)),
        decreases values@.len() - i,
    {
        proof {
            assert(values@.take(i as int + 1).drop_last() =~= values@.take(i as int));
            assert(values@.take(i as int + 1).last() == values@[i as int]);
        }
        let k = kind(&values[i]);
        found = match found {
            None => None,
            Some(p) => if p == Kind::Nothing {
                Some(k)
            } else if k == Kind::Nothing || k == p {
                Some(p)
            } else {
                None
            },
        };
        i = i + 1;
    }
    proof {
        assert(values@.take(i as int) =~= values@);
    }
    found
}

fn ints_of(values: &Vec<HostValue>) -> (r: Vec<i64>)
    ensures
        r@ =~= Seq::new(values@.len(), |i: int| host_int(values@[i])),
{
    let mut out: Vec<i64> = Vec::new();
    let mut i: usize = 0;
    while i < values.len()
        invariant
            i <= values@.len(),
            out@.len() == i,
            forall|k: int| 0 <= k < i ==> #[trigger] out@[k] == host_int(values@[k]),
        decreases values@.len() - i,
    {
        let x: i64 = match &values[i] {
            HostValue::Int(n) => *n,
            _ => 0,
        };
        out.push(x);
        i = i + 1;
    }
    out
}

fn floats_of(values: &Vec<HostValue>) -> (r: Vec<u64>)
    ensures
        r@ =~= Seq::new(values@.len(), |i: int| host_float(values@[i])),
{
    let mut out: Vec<u64> = Vec::new();
    let mut i: usize = 0;
    while i < values.len()
        invariant
            i <= values@.len(),
            out@.len() == i,
            forall|k: int| 0 <= k < i ==> #[trigger] out@[k] == host_float(values@[k]),
        decreases values@.len() - i,
    {
        let x: u64 = match &values[i] {
            HostValue::Float(bits, _) => *bits,
            _ => 0,
        };
        out.push(x);
        i = i + 1;
    }
    out
}

fn texts_of(values: &Vec<HostValue>) -> (r: Vec<String>)
    ensures
        text_views(r@) =~= Seq::new(values@.len(), |i: int| host_text(values@[i])),
{
    let mut out: Vec<String> = Vec::new();
    let mut i: usize = 0;
    while i < values.len()
        invariant
            i <= values@.len(),
            out@.len() == i,
            forall|k: int| 0 <= k < i ==> (#[trigger] out@[k])@ == host_text(values@[k]),
        decreases values@.len() - i,
    {
        let x: String = match &values[i] {
            HostValue::Text(s) => copy_text(s),
            _ => String::new(),
        };
        proof {
            assert(x@ =~= host_text(values@[i as int]));
        }
        out.push(x);
        i = i + 1;
    }
    out
}

fn bytes_of(values: &Vec<HostValue>) -> (r: Vec<Vec<u8>>)
    ensures
        byte_views(r@) =~= Seq::new(values@.len(), |i: int| host_bytes(values@[i])),
{
    let mut out: Vec<Vec<u8>> = Vec::new();
    let mut i: usize = 0;
    while i < values.len()
        invariant
            i <= values@.len(),
            out@.len() == i,
            forall|k: int| 0 <= k < i ==> (#[trigger] out@[k])@ == host_bytes(values@[k]),
        decreases values@.len() - i,
    {
        let x: Vec<u8> = match &values[i] {
            HostValue::Bytes(b) => copy_bytes(b),
            _ => Vec::new(),
        };
        proof {
            assert(x@ =~= host_bytes(values@[i as int]));
        }
        out.push(x);
        i = i + 1;
    }
    out
}

fn json_texts_of(values: &Vec<HostValue>) -> (r: Vec<String>)
    ensures
        text_views(r@) =~= Seq::new(values@.len(), |i: int| json_shown(host_json(values@[i]))),
        forall|i: int|
            0 <= i < values@.len() && kept_by_text(host_json(values@[i])) ==> reads_as(
                (#[trigger] r@[i])@,
                host_json(values@[i]),
            ),
{
    let mut out: Vec<String> = Vec::new();
    let mut i: usize = 0;
    while i < values.len()
        invariant
            i <= values@.len(),
            out@.len() == i,
            forall|k: int|
                0 <= k < i ==> (#[trigger] out@[k])@ == json_shown(host_json(values@[k])),
            forall|k: int|
                0 <= k < i && kept_by_text(host_json(values@[k])) ==> reads_as(
                    (#[trigger] out@[k])@,
                    host_json(values@[k]),
                ),
        decreases values@.len() - i,
    {
        let j = python_to_json(&values[i]);
        out.push(json_text(&j));
        i = i + 1;
    }
    out
}

proof fn lemma_all_nothing(values: Seq<HostValue>)
    requires
        common_kind(values) == Some(Kind::Nothing),
    ensures
        forall|i: int| 0 <= i < values.len() ==> #[trigger] values[i] is Nothing,
    decreases values.len(),
{
    if values.len() > 0 {
        let t = values.drop_last();
        assert(common_kind(t) == Some(Kind::Nothing));
        lemma_all_nothing(t);
        assert forall|i: int| 0 <= i < values.len() implies #[trigger] values[i] is Nothing by {
            if i < t.len() {
                assert(t[i] == values[i]);
            }
        }
    }
}

/// Makes a typed column of values. Where they are written as JSON texts, each
/// that JSON text keeps is read back from its text.
pub fn python_values_to_typed_column(values: &Vec<HostValue>) -> (r: TypedColumn)
    ensures
        r@ == host_column(values@),
        r matches TypedColumn::Variant(v) ==> forall|i: int|
            0 <= i < values@.len() && kept_by_text(host_json(values@[i])) ==> json_or_null(
                (#[trigger] v@[i])@,
            ) == host_json(values@[i]),
{
    match find_common_kind(values) {
        Some(Kind::Nothing) => {
            let v = ints_of(values);
            proof {
                lemma_all_nothing(values@);
                assert(v@ =~= Seq::new(values@.len(), |i: int| 0i64));
            }
            TypedColumn::Int64(v)
        },
        Some(Kind::Int) => TypedColumn::Int64(ints_of(values)),
        Some(Kind::Float) => TypedColumn::Float64(floats_of(values)),
        Some(Kind::Text) => TypedColumn::String(texts_of(values)),
        Some(Kind::Bytes) => TypedColumn::Binary(bytes_of(values)),
        _ => {
            let texts = json_texts_of(values);
            proof {
                assert forall|i: int|
                    0 <= i < values@.len() && kept_by_text(host_json(values@[i])) implies json_or_null(
                    (#[trigger] texts@[i])@,
                ) == host_json(values@[i]) by {
                    assert(reads_as(texts@[i]@, host_json(values@[i])));
                }
            }
            TypedColumn::Variant(texts)
        },
    }
}

/// A column of values has one entry for each.
pub proof fn host_column_is_full(values: Seq<HostValue>)
    ensures
        crate::infer::typed_len(host_column(values)) == values.len(),
{
}

} // verus!
