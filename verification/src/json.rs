//! JSON values: rows, cells and their texts.

use serde_json::Value;
use vstd::prelude::*;
use vstd::string::*;
use crate::float::{f64_eq, f64_of_int, f64_same, int_to_f64, uint_to_f64};
use vstd::utf8::encode_utf8;
use crate::text::{copy_text, decimal, decimal_int, same_text, text_before};

verus! {

/// A JSON number: a whole number, or a float. A float carries its bit pattern,
/// by which it is compared, and its JSON text, by which it is written. `UInt`
/// is for the numbers above the signed range.
#[derive(Debug, PartialEq)]
pub enum JsonNumber {
    Int(i64),
    UInt(u64),
    Float(u64, String),
}

/// What a JSON number is.
pub enum Number {
    Int(i64),
    UInt(u64),
    Float(u64, Seq<char>),
}

impl View for JsonNumber {
    type V = Number;

    open spec fn view(&self) -> Number {
        match self {
            JsonNumber::Int(i) => Number::Int(*i),
            JsonNumber::UInt(u) => Number::UInt(*u),
            JsonNumber::Float(f, text) => Number::Float(*f, text@),
        }
    }
}

fn copy_number(n: &JsonNumber) -> (r: JsonNumber)
    ensures
        r@ == n@,
{
    match n {
        JsonNumber::Int(i) => JsonNumber::Int(*i),
        JsonNumber::UInt(u) => JsonNumber::UInt(*u),
        JsonNumber::Float(f, text) => JsonNumber::Float(*f, copy_text(text)),
    }
}

/// A JSON value. An object is a list of fields in order.
#[derive(Debug, PartialEq)]
pub enum JsonValue {
    Null,
    Bool(bool),
    Number(JsonNumber),
    String(String),
    Array(Vec<JsonValue>),
    Object(Vec<(String, JsonValue)>),
}

/// What a JSON value is.
pub enum Json {
    Null,
    Bool(bool),
    Number(Number),
    String(Seq<char>),
    Array(Seq<Json>),
    Object(Seq<(Seq<char>, Json)>),
}

pub open spec fn json_view(v: JsonValue) -> Json
    decreases v,
{
    match v {
        JsonValue::Null => Json::Null,
        JsonValue::Bool(b) => Json::Bool(b),
        JsonValue::Number(n) => Json::Number(n@),
        JsonValue::String(s) => Json::String(s@),
        JsonValue::Array(items) => Json::Array(
            Seq::new(
                items@.len(),
                |i: int|
                    if 0 <= i < items@.len() {
                        json_view(items[i])
                    } else {
                        Json::Null
                    },
            ),
        ),
        JsonValue::Object(fields) => Json::Object(
            Seq::new(
                fields@.len(),
                |i: int|
                    if 0 <= i < fields@.len() {
                        (fields[i].0@, json_view(fields[i].1))
                    } else {
                        (Seq::empty(), Json::Null)
                    },
            ),
        ),
    }
}

impl View for JsonValue {
    type V = Json;

    open spec fn view(&self) -> Json {
        json_view(*self)
    }
}

/// The values of a list.
pub open spec fn json_views(v: Seq<JsonValue>) -> Seq<Json> {
    Seq::new(v.len(), |i: int| v[i]@)
}

/// The fields of an object.
pub open spec fn field_views(v: Seq<(String, JsonValue)>) -> Seq<(Seq<char>, Json)> {
    Seq::new(v.len(), |i: int| (v[i].0@, v[i].1@))
}

pub proof fn lemma_array_view(items: Vec<JsonValue>)
    ensures
        JsonValue::Array(items)@ == Json::Array(json_views(items@)),
{
    let v = JsonValue::Array(items);
    assert(v@->Array_0 =~= json_views(items@));
}

pub proof fn lemma_object_view(fields: Vec<(String, JsonValue)>)
    ensures
        JsonValue::Object(fields)@ == Json::Object(field_views(fields@)),
{
    let v = JsonValue::Object(fields);
    assert(v@->Object_0 =~= field_views(fields@));
}

/// A copy of a value.
pub fn copy_json(v: &JsonValue) -> (r: JsonValue)
    ensures
        r@ == v@,
    decreases v,
{
    match v {
        JsonValue::Null => JsonValue::Null,
        JsonValue::Bool(b) => JsonValue::Bool(*b),
        JsonValue::Number(n) => JsonValue::Number(copy_number(n)),
        JsonValue::String(s) => JsonValue::String(copy_text(s)),
        JsonValue::Array(items) => {
            let mut out: Vec<JsonValue> = Vec::new();
            let mut i: usize = 0;
            while i < items.len()
                invariant
                    i <= items@.len(),
                    v is Array,
                    v->Array_0 == *items,
                    json_views(out@) =~= json_views(items@).take(i as int),
                decreases items@.len() - i,
            {
                let ghost before = json_views(out@);
                let c = copy_json(&items[i]);
                let ghost cv = c@;
                out.push(c);
                proof {
                    assert(json_views(out@) =~= before.push(cv));
                }
                i = i + 1;
            }
            proof {
                assert(json_views(out@) =~= json_views(items@));
                lemma_array_view(*items);
                lemma_array_view(out);
            }
            JsonValue::Array(out)
        },
        JsonValue::Object(fields) => {
            let mut out: Vec<(String, JsonValue)> = Vec::new();
            let mut i: usize = 0;
            while i < fields.len()
                invariant
                    i <= fields@.len(),
                    v is Object,
                    v->Object_0 == *fields,
                    field_views(out@) =~= field_views(fields@).take(i as int),
                decreases fields@.len() - i,
            {
                let ghost before = field_views(out@);
                let k = copy_text(&fields[i].0);
                let c = copy_json(&fields[i].1);
                let ghost f = (k@, c@);
                out.push((k, c));
                proof {
                    assert(field_views(out@) =~= before.push(f));
                }
                i = i + 1;
            }
            proof {
                assert(field_views(out@) =~= field_views(fields@));
                lemma_object_view(*fields);
                lemma_object_view(out);
            }
            JsonValue::Object(out)
        },
    }
}

/// Where an object first holds a key.
pub open spec fn key_at(fields: Seq<(Seq<char>, Json)>, key: Seq<char>) -> Option<int>
    decreases fields.len(),
{
    if fields.len() == 0 {
        None
    } else {
        match key_at(fields.drop_last(), key) {
            Some(i) => Some(i),
            None => if fields.last().0 == key {
                Some(fields.len() - 1)
            } else {
                None
            },
        }
    }
}

/// The value of a key.
pub open spec fn lookup(fields: Seq<(Seq<char>, Json)>, key: Seq<char>) -> Option<Json> {
    match key_at(fields, key) {
        Some(i) => Some(fields[i].1),
        None => None,
    }
}

/// The object with the key set: in place where it is there, else at the end.
pub open spec fn put(fields: Seq<(Seq<char>, Json)>, key: Seq<char>, v: Json) -> Seq<(Seq<char>, Json)> {
    match key_at(fields, key) {
        Some(i) => fields.update(i, (key, v)),
        None => fields.push((key, v)),
    }
}

/// The value of a key in a value; only objects have keys.
pub open spec fn member(v: Json, key: Seq<char>) -> Option<Json> {
    match v {
        Json::Object(fields) => lookup(fields, key),
        _ => None,
    }
}

pub proof fn lemma_key_at(fields: Seq<(Seq<char>, Json)>, key: Seq<char>)
    ensures
        match key_at(fields, key) {
            Some(i) => 0 <= i < fields.len() && fields[i].0 == key && forall|j: int|
                0 <= j < i ==> (#[trigger] fields[j]).0 != key,
            None => forall|j: int| 0 <= j < fields.len() ==> (#[trigger] fields[j]).0 != key,
        },
    decreases fields.len(),
{
    if fields.len() > 0 {
        let t = fields.drop_last();
        lemma_key_at(t, key);
        match key_at(t, key) {
            Some(i) => {
                assert(t[i] == fields[i]);
                assert forall|j: int| 0 <= j < i implies (#[trigger] fields[j]).0 != key by {
                    assert(t[j] == fields[j]);
                }
            },
            None => {
                assert forall|j: int| 0 <= j < fields.len() - 1 implies (#[trigger] fields[j]).0
                    != key by {
                    assert(t[j] == fields[j]);
                }
            },
        }
    }
}

/// The first place of a key is the only place that the definition can give.
pub proof fn lemma_key_at_is(fields: Seq<(Seq<char>, Json)>, key: Seq<char>, i: int)
    requires
        0 <= i < fields.len(),
        fields[i].0 == key,
        forall|j: int| 0 <= j < i ==> (#[trigger] fields[j]).0 != key,
    ensures
        key_at(fields, key) == Some(i),
{
    lemma_key_at(fields, key);
}

/// A key that was set reads back; every other key reads as before.
pub proof fn put_then_lookup(fields: Seq<(Seq<char>, Json)>, key: Seq<char>, v: Json, other: Seq<char>)
    ensures
        lookup(put(fields, key, v), key) == Some(v),
        other != key ==> lookup(put(fields, key, v), other) == lookup(fields, other),
{
    let after = put(fields, key, v);
    lemma_key_at(fields, key);
    lemma_key_at(fields, other);
    lemma_key_at(after, key);
    lemma_key_at(after, other);
    match key_at(fields, key) {
        Some(i) => {
            assert(after[i] == (key, v));
            lemma_key_at_is(after, key, i);
        },
        None => {
            let n = fields.len() as int;
            assert(after[n] == (key, v));
            lemma_key_at_is(after, key, n);
        },
    }
    if other != key {
        match key_at(fields, other) {
            Some(j) => {
                assert(after[j] == fields[j]);
                lemma_key_at_is(after, other, j);
            },
            None => {
                if key_at(after, other) is Some {
                    let j = key_at(after, other)->0;
                    assert(after[j].0 == other);
                    assert(j < fields.len() ==> after[j] == fields[j] || after[j] == (key, v));
                }
            },
        }
    }
}

/// Finds a key.
pub fn find_key(fields: &Vec<(String, JsonValue)>, key: &str) -> (r: Option<usize>)
    ensures
        match r {
            Some(i) => key_at(field_views(fields@), key@) == Some(i as int) && i < fields@.len(),
            None => key_at(field_views(fields@), key@) is None,
        },
{
    let ghost all = field_views(fields@);
    let mut i: usize = 0;
    while i < fields.len()
        invariant
            i <= fields@.len(),
            all == field_views(fields@),
            forall|j: int| 0 <= j < i ==> (#[trigger] all[j]).0 != key@,
        decreases fields@.len() - i,
    {
        if same_text(&fields[i].0, key) {
            proof {
                assert(all[i as int].0 == key@);
                lemma_key_at_is(all, key@, i as int);
            }
            return Some(i);
        }
        proof {
            assert(all[i as int].0 != key@);
        }
        i = i + 1;
    }
    proof {
        lemma_key_at(all, key@);
    }
    None
}

/// Sets a key.
pub fn put_field(fields: &mut Vec<(String, JsonValue)>, key: &str, v: JsonValue)
    ensures
        field_views(final(fields)@) == put(field_views(old(fields)@), key@, v@),
{
    let ghost before = field_views(fields@);
    let ghost vv = v@;
    match find_key(fields, key) {
        Some(i) => {
            fields[i] = (copy_text(key), v);
            proof {
                assert(field_views(fields@) =~= before.update(i as int, (key@, vv)));
            }
        },
        None => {
            fields.push((copy_text(key), v));
            proof {
                assert(field_views(fields@) =~= before.push((key@, vv)));
            }
        },
    }
}

impl JsonValue {
    /// The value of a key.
    pub fn get(&self, key: &str) -> (r: Option<&JsonValue>)
        ensures
            match r {
                Some(v) => member(self@, key@) == Some(v@),
                None => member(self@, key@) is None,
            },
    {
        match self {
            JsonValue::Object(fields) => {
                proof {
                    lemma_object_view(*fields);
                }
                match find_key(fields, key) {
                    Some(i) => Some(&fields[i].1),
                    None => None,
                }
            },
            _ => None,
        }
    }

    pub fn as_str(&self) -> (r: Option<&String>)
        ensures
            match r {
                Some(s) => str_of(self@) == Some(s@),
                None => str_of(self@) is None,
            },
    {
        match self {
            JsonValue::String(s) => Some(s),
            _ => None,
        }
    }

    pub fn as_bool(&self) -> (r: Option<bool>)
        ensures
            r == bool_of(self@),
    {
        match self {
            JsonValue::Bool(b) => Some(*b),
            _ => None,
        }
    }

    /// The number, where it is whole and in the signed range.
    pub fn as_i64(&self) -> (r: Option<i64>)
        ensures
            r == i64_of(self@),
    {
        match self {
            JsonValue::Number(JsonNumber::Int(i)) => Some(*i),
            JsonValue::Number(JsonNumber::UInt(u)) => if *u <= 0x7FFF_FFFF_FFFF_FFFF {
                Some(*u as i64)
            } else {
                None
            },
            _ => None,
        }
    }

    /// The number as a float's bit pattern.
    pub fn as_float(&self) -> (r: Option<u64>)
        ensures
            r == float_of(self@),
    {
        match self {
            JsonValue::Number(n) => Some(number_to_float(n)),
            _ => None,
        }
    }

    pub fn is_null(&self) -> (r: bool)
        ensures
            r == (self@ == Json::Null),
    {
        match self {
            JsonValue::Null => true,
            _ => false,
        }
    }
}

pub open spec fn str_of(v: Json) -> Option<Seq<char>> {
    match v {
        Json::String(s) => Some(s),
        _ => None,
    }
}

pub open spec fn bool_of(v: Json) -> Option<bool> {
    match v {
        Json::Bool(b) => Some(b),
        _ => None,
    }
}

pub open spec fn i64_of(v: Json) -> Option<i64> {
    match v {
        Json::Number(Number::Int(i)) => Some(i),
        Json::Number(Number::UInt(u)) => if u <= 0x7FFF_FFFF_FFFF_FFFF {
            Some(u as i64)
        } else {
            None
        },
        _ => None,
    }
}

pub open spec fn number_float(n: Number) -> u64 {
    match n {
        Number::Int(i) => f64_of_int(i as int),
        Number::UInt(u) => f64_of_int(u as int),
        Number::Float(f, _) => f,
    }
}

pub open spec fn float_of(v: Json) -> Option<u64> {
    match v {
        Json::Number(n) => Some(number_float(n)),
        _ => None,
    }
}

pub fn number_to_float(n: &JsonNumber) -> (r: u64)
    ensures
        r == number_float(n@),
{
    match n {
        JsonNumber::Int(i) => int_to_f64(*i),
        JsonNumber::UInt(u) => uint_to_f64(*u),
        JsonNumber::Float(f, _) => *f,
    }
}

/// Equality of numbers: a whole number never equals a float.
pub open spec fn number_same(a: Number, b: Number) -> bool {
    match (a, b) {
        (Number::Int(x), Number::Int(y)) => x == y,
        (Number::UInt(x), Number::UInt(y)) => x == y,
        (Number::Int(x), Number::UInt(y)) => x as int == y as int,
        (Number::UInt(x), Number::Int(y)) => x as int == y as int,
        (Number::Float(x, _), Number::Float(y, _)) => f64_same(x, y),
        _ => false,
    }
}

fn number_eq(a: &JsonNumber, b: &JsonNumber) -> (r: bool)
    ensures
        r == number_same(a@, b@),
{
    match (a, b) {
        (JsonNumber::Int(x), JsonNumber::Int(y)) => *x == *y,
        (JsonNumber::UInt(x), JsonNumber::UInt(y)) => *x == *y,
        (JsonNumber::Int(x), JsonNumber::UInt(y)) => *x as i128 == *y as i128,
        (JsonNumber::UInt(x), JsonNumber::Int(y)) => *x as i128 == *y as i128,
        (JsonNumber::Float(x, _), JsonNumber::Float(y, _)) => f64_eq(*x, *y),
        _ => false,
    }
}

/// Structural equality. Objects are equal when they have as many fields and
/// every field of one has an equal one in the other.
pub open spec fn json_same(a: Json, b: Json) -> bool
    decreases a,
{
    match (a, b) {
        (Json::Null, Json::Null) => true,
        (Json::Bool(x), Json::Bool(y)) => x == y,
        (Json::Number(x), Json::Number(y)) => number_same(x, y),
        (Json::String(x), Json::String(y)) => x == y,
        (Json::Array(x), Json::Array(y)) => x.len() == y.len() && forall|i: int|
            0 <= i < x.len() ==> json_same(#[trigger] x[i], y[i]),
        (Json::Object(x), Json::Object(y)) => x.len() == y.len() && forall|i: int|
            0 <= i < x.len() ==> key_at(y, (#[trigger] x[i]).0) is Some && json_same(
                x[i].1,
                y[key_at(y, x[i].0)->0].1,
            ),
        _ => false,
    }
}

/// Whether two values are equal.
pub fn json_eq(a: &JsonValue, b: &JsonValue) -> (r: bool)
    ensures
        r == json_same(a@, b@),
    decreases a,
{
    match (a, b) {
        (JsonValue::Null, JsonValue::Null) => true,
        (JsonValue::Bool(x), JsonValue::Bool(y)) => *x == *y,
        (JsonValue::Number(x), JsonValue::Number(y)) => number_eq(x, y),
        (JsonValue::String(x), JsonValue::String(y)) => same_text(x, y),
        (JsonValue::Array(x), JsonValue::Array(y)) => {
            proof {
                lemma_array_view(*x);
                lemma_array_view(*y);
            }
            if x.len() != y.len() {
                return false;
            }
            let ghost xs = json_views(x@);
            let ghost ys = json_views(y@);
            let mut i: usize = 0;
            while i < x.len()
                invariant
                    i <= x@.len(),
                    x@.len() == y@.len(),
                    a == JsonValue::Array(*x),
                    xs == json_views(x@),
                    ys == json_views(y@),
                    a@ == Json::Array(xs),
                    b@ == Json::Array(ys),
                    forall|k: int| 0 <= k < i ==> json_same(#[trigger] xs[k], ys[k]),
                decreases x@.len() - i,
            {
                if !json_eq(&x[i], &y[i]) {
                    proof {
                        assert(!json_same(xs[i as int], ys[i as int]));
                    }
                    return false;
                }
                proof {
                    assert(json_same(xs[i as int], ys[i as int]));
                }
                i = i + 1;
            }
            true
        },
        (JsonValue::Object(x), JsonValue::Object(y)) => {
            proof {
                lemma_object_view(*x);
                lemma_object_view(*y);
            }
            if x.len() != y.len() {
                return false;
            }
            let ghost xs = field_views(x@);
            let ghost ys = field_views(y@);
            let mut i: usize = 0;
            while i < x.len()
                invariant
                    i <= x@.len(),
                    x@.len() == y@.len(),
                    a == JsonValue::Object(*x),
                    xs == field_views(x@),
                    ys == field_views(y@),
                    a@ == Json::Object(xs),
                    b@ == Json::Object(ys),
                    forall|k: int|
                        0 <= k < i ==> key_at(ys, (#[trigger] xs[k]).0) is Some && json_same(
                            xs[k].1,
                            ys[key_at(ys, xs[k].0)->0].1,
                        ),
                decreases x@.len() - i,
            {
                match find_key(y, &x[i].0) {
                    Some(j) => {
                        let same = json_eq(&x[i].1, &y[j].1);
                        proof {
                            assert(xs[i as int] == (x@[i as int].0@, x@[i as int].1@));
                            assert(ys[j as int].1 == y@[j as int].1@);
                            assert(same == json_same(
                                xs[i as int].1,
                                ys[key_at(ys, xs[i as int].0)->0].1,
                            ));
                        }
                        if !same {
                            return false;
                        }
                    },
                    None => {
                        proof {
                            assert(xs[i as int].0 == x@[i as int].0@);
                            assert(!(key_at(ys, xs[i as int].0) is Some && json_same(
                                xs[i as int].1,
                                ys[key_at(ys, xs[i as int].0)->0].1,
                            )));
                        }
                        return false;
                    },
                }
                i = i + 1;
            }
            true
        },
        _ => false,
    }
}

/// The compact JSON text of a value.
pub uninterp spec fn json_display(v: Json) -> Seq<char>;

/// A JSON value of the serde_json crate.
#[verifier::external_type_specification]
#[verifier::external_body]
pub struct ExValue(serde_json::Value);

/// The same value as `serde_json::Value`. A float is read from its text by
/// `serde_json::Number`'s `FromStr`; one that it refuses becomes null. Nothing
/// is claimed of the result but in `json_text`.
#[verifier::external_body]
fn outside_value(v: &JsonValue) -> Value {
    match v {
        JsonValue::Null => Value::Null,
        JsonValue::Bool(b) => Value::Bool(*b),
        JsonValue::Number(JsonNumber::Int(i)) => Value::from(*i),
        JsonValue::Number(JsonNumber::UInt(u)) => Value::from(*u),
        JsonValue::Number(JsonNumber::Float(_, text)) => text.parse().map_or(Value::Null, Value::Number),
        JsonValue::String(s) => Value::String(s.clone()),
        JsonValue::Array(a) => Value::Array(a.iter().map(outside_value).collect()),
        JsonValue::Object(o) => Value::Object(
            o.iter().map(|(k, x)| (k.clone(), outside_value(x))).collect()),
    }
}

/// A text that JSON writes as it is, between quotes: without quotes, backslashes
/// and control characters.
pub open spec fn unescaped(s: Seq<char>) -> bool {
    forall|i: int| 0 <= i < s.len() ==> ' ' <= (#[trigger] s[i]) && s[i] != '"' && s[i] != '\\'
}

/// A value whose JSON text is plain to see: null, a boolean, a whole number, a
/// text without anything to escape.
pub open spec fn plain_to_see(v: Json) -> bool {
    match v {
        Json::Null => true,
        Json::Bool(_) => true,
        Json::Number(Number::Int(_)) => true,
        Json::Number(Number::UInt(_)) => true,
        Json::String(s) => unescaped(s),
        _ => false,
    }
}

/// The compact JSON text of a value. It is given a name only where it is not
/// plain to see.
pub open spec fn json_shown(v: Json) -> Seq<char> {
    match v {
        Json::Null => "null"@,
        Json::Bool(b) => if b {
            "true"@
        } else {
            "false"@
        },
        Json::Number(Number::Int(i)) => decimal_int(i as int),
        Json::Number(Number::UInt(u)) => decimal(u as nat),
        Json::String(s) => if unescaped(s) {
            seq!['"'] + s + seq!['"']
        } else {
            json_display(v)
        },
        _ => json_display(v),
    }
}

/// A value that is neither a list nor an object nor a float, and whose number
/// stands where its size puts it.
pub open spec fn simple(v: Json) -> bool {
    match v {
        Json::Number(Number::Int(_)) => true,
        Json::Number(Number::UInt(u)) => u > i64::MAX,
        Json::Number(Number::Float(_, _)) => false,
        Json::Array(_) => false,
        Json::Object(_) => false,
        _ => true,
    }
}

/// A value that JSON text keeps: a simple one, a list of such, an object of such
/// with its keys in order.
pub open spec fn kept_by_text(v: Json) -> bool {
    match v {
        Json::Array(items) => forall|i: int| 0 <= i < items.len() ==> simple(#[trigger] items[i]),
        Json::Object(fields) => {
            &&& forall|i: int| 0 <= i < fields.len() ==> simple((#[trigger] fields[i]).1)
            &&& forall|i: int, j: int|
                0 <= i < j < fields.len() ==> text_before((#[trigger] fields[i]).0, (#[trigger] fields[j]).0)
        },
        _ => simple(v),
    }
}

/// Whether a text reads as a value.
pub open spec fn reads_as(text: Seq<char>, v: Json) -> bool {
    json_parsed(encode_utf8(text)) == Ok::<Json, Seq<char>>(v)
}

/// `serde_json::Value`'s `to_string`: the value's compact JSON text. Of null,
/// booleans, whole numbers and texts with nothing to escape it is stated; else it
/// is given a name. Reading the text with `serde_json::from_slice` gives the
/// value back, where it has no floats and no deep nesting and its keys are in
/// order.
#[verifier::external_body]
pub(crate) fn json_text(v: &JsonValue) -> (r: String)
    ensures
        plain_to_see(v@) ==> r@ == json_shown(v@),
        !plain_to_see(v@) ==> r@ == json_display(v@),
        kept_by_text(v@) ==> reads_as(r@, v@),
{
    outside_value(v).to_string()
}

/// The JSON value that bytes stand for, or the message why they stand for none.
pub uninterp spec fn json_parsed(bytes: Seq<u8>) -> Result<Json, Seq<char>>;

/// The same value as a `JsonValue`, from the variants of `serde_json::Value` and
/// the readings of its numbers. Nothing is claimed of the result but in
/// `parse_json`.
#[verifier::external_body]
fn inside_value(v: &Value) -> JsonValue {
    match v {
        Value::Null => JsonValue::Null,
        Value::Bool(b) => JsonValue::Bool(*b),
        Value::Number(n) => JsonValue::Number(match n.as_i64() {
            Some(i) => JsonNumber::Int(i),
            None => n.as_u64().map_or_else(
                || JsonNumber::Float(n.as_f64().map_or(0, |x| x.to_bits()), n.to_string()), JsonNumber::UInt),
        }),
        Value::String(s) => JsonValue::String(s.clone()),
        Value::Array(a) => JsonValue::Array(a.iter().map(inside_value).collect()),
        Value::Object(o) => JsonValue::Object(o.iter().map(|(k, x)| (k.clone(), inside_value(x))).collect()),
    }
}

/// `serde_json::from_slice` into a `serde_json::Value`: the value that the bytes
/// stand for, or the error's text. Both are functions of the bytes alone and are
/// given one name.
#[verifier::external_body]
pub(crate) fn parse_json(bytes: &[u8]) -> (r: Result<JsonValue, String>)
    ensures
        match r {
            Ok(v) => json_parsed(bytes@) == Ok::<Json, Seq<char>>(v@),
            Err(e) => json_parsed(bytes@) == Err::<Json, Seq<char>>(e@),
        },
{
    match serde_json::from_slice::<Value>(bytes) {
        Ok(v) => Ok(inside_value(&v)),
        Err(e) => Err(e.to_string()),
    }
}

/// The values of the JSON list that bytes stand for, or the message why they stand
/// for none.
pub uninterp spec fn json_list_parsed(bytes: Seq<u8>) -> Result<Seq<Json>, Seq<char>>;

/// `serde_json::from_slice` into a list of `serde_json::Value`: the values of the
/// list that the bytes stand for, or the error's text. Both are functions of the
/// bytes alone and are given one name. There is a list just where
/// `serde_json::from_slice` into one value gives a list, and of the same values.
#[verifier::external_body]
pub(crate) fn parse_json_list(bytes: &[u8]) -> (r: Result<Vec<JsonValue>, String>)
    ensures
        match r {
            Ok(v) => json_list_parsed(bytes@) == Ok::<Seq<Json>, Seq<char>>(json_views(v@)),
            Err(e) => json_list_parsed(bytes@) == Err::<Seq<Json>, Seq<char>>(e@),
        },
        match json_parsed(bytes@) {
            Ok(Json::Array(items)) => r matches Ok(v) && json_views(v@) == items,
            _ => r is Err,
        },
{
    match serde_json::from_slice::<Vec<Value>>(bytes) {
        Ok(v) => Ok(v.iter().map(inside_value).collect()),
        Err(e) => Err(e.to_string()),
    }
}

impl JsonValue {
    /// The compact JSON text of a value. A value without floats and deep nesting,
    /// with its keys in order, reads back from it.
    pub fn to_text(&self) -> (r: String)
        ensures
            r@ == json_shown(self@),
            kept_by_text(self@) ==> reads_as(r@, self@),
    {
        json_text(self)
    }

    /// Reads JSON.
    pub fn parse(bytes: &[u8]) -> (r: Result<JsonValue, String>)
        ensures
            match r {
                Ok(v) => json_parsed(bytes@) == Ok::<Json, Seq<char>>(v@),
                Err(e) => json_parsed(bytes@) == Err::<Json, Seq<char>>(e@),
            },
    {
        parse_json(bytes)
    }
}

} // verus!
