//! Typed columns: values by type, and blobs made from them.

use vstd::prelude::*;
use vstd::string::*;
use vstd::utf8::encode_utf8;
use crate::assemble::{assemble, blob_bytes, float_stats, float_stats_of, int_stats, int_stats_of, part_views,
    EncodedColumn, Part};
use crate::bytes::{copy_bytes, push_i64, push_le};
use crate::constants::{ENC_RAW, VT_BINARY, VT_BOOLEAN, VT_DATE, VT_FLOAT64, VT_INT64, VT_STRING,
    VT_TIMESTAMP, VT_VARIANT, VT_VECTOR};
use crate::encode::{auto_encoding, encode_i64_auto, encode_raw_f64_payload, ints_payload, push_string,
    raw_strings_payload, raw_words_payload, string_parts};
use crate::numeral::le_bytes;
use crate::seqs::{concat, lemma_concat_push};
use crate::text::text_views;
use crate::types::byte_views;

verus! {

/// A column's values. Floats are given as their bit patterns.
#[derive(Debug, PartialEq)]
pub enum TypedColumn {
    Int64(Vec<i64>),
    Float64(Vec<u64>),
    String(Vec<String>),
    Binary(Vec<Vec<u8>>),
    /// Each value is a JSON text.
    Variant(Vec<String>),
    Boolean(Vec<bool>),
    Date(Vec<i64>),
    Timestamp(Vec<i64>),
    Vector(Vec<Vec<u32>>),
}

/// What a typed column holds.
pub enum TypedView {
    Int64(Seq<i64>),
    Float64(Seq<u64>),
    String(Seq<Seq<char>>),
    Binary(Seq<Seq<u8>>),
    Variant(Seq<Seq<char>>),
    Boolean(Seq<bool>),
    Date(Seq<i64>),
    Timestamp(Seq<i64>),
    Vector(Seq<Seq<u32>>),
}

impl View for TypedColumn {
    type V = TypedView;

    open spec fn view(&self) -> TypedView {
        match self {
            TypedColumn::Int64(v) => TypedView::Int64(v@),
            TypedColumn::Float64(v) => TypedView::Float64(v@),
            TypedColumn::String(v) => TypedView::String(text_views(v@)),
            TypedColumn::Binary(v) => TypedView::Binary(byte_views(v@)),
            TypedColumn::Variant(v) => TypedView::Variant(text_views(v@)),
            TypedColumn::Boolean(v) => TypedView::Boolean(v@),
            TypedColumn::Date(v) => TypedView::Date(v@),
            TypedColumn::Timestamp(v) => TypedView::Timestamp(v@),
            TypedColumn::Vector(v) => TypedView::Vector(Seq::new(v@.len(), |i: int| v@[i]@)),
        }
    }
}

/// The bytes of each text.
pub open spec fn text_bytes(v: Seq<String>) -> Seq<Seq<u8>> {
    Seq::new(v.len(), |i: int| encode_utf8(v[i]@))
}

/// Booleans as 0 and 1.
pub open spec fn bool_ints(v: Seq<bool>) -> Seq<i64> {
    Seq::new(
        v.len(),
        |i: int|
            if v[i] {
                1i64
            } else {
                0i64
            },
    )
}

/// Each 32-bit pattern as four bytes.
pub open spec fn half_parts(v: Seq<u32>) -> Seq<Seq<u8>> {
    Seq::new(v.len(), |i: int| le_bytes(v[i] as nat, 4))
}

/// Each vector with its length before it.
pub open spec fn vector_parts(v: Seq<Vec<u32>>) -> Seq<Seq<u8>> {
    Seq::new(v.len(), |i: int| le_bytes(v[i]@.len(), 4) + concat(half_parts(v[i]@)))
}

/// The least and greatest of booleans, as stats: 0, and whether any is true.
pub open spec fn bool_stats(v: Seq<bool>) -> Option<(Seq<u8>, Seq<u8>)> {
    Some(
        (
            le_bytes(0, 8),
            le_bytes(
                if v.contains(true) {
                    1
                } else {
                    0
                },
                8,
            ),
        ),
    )
}

impl TypedColumn {
    /// The numbers that an integer-like column stores.
    pub open spec fn ints(self) -> Seq<i64> {
        match self {
            TypedColumn::Int64(v) => v@,
            TypedColumn::Boolean(v) => bool_ints(v@),
            TypedColumn::Date(v) => v@,
            TypedColumn::Timestamp(v) => v@,
            _ => Seq::empty(),
        }
    }

    pub open spec fn vtype_spec(self) -> u8 {
        match self {
            TypedColumn::Int64(_) => VT_INT64,
            TypedColumn::Float64(_) => VT_FLOAT64,
            TypedColumn::String(_) => VT_STRING,
            TypedColumn::Binary(_) => VT_BINARY,
            TypedColumn::Variant(_) => VT_VARIANT,
            TypedColumn::Boolean(_) => VT_BOOLEAN,
            TypedColumn::Date(_) => VT_DATE,
            TypedColumn::Timestamp(_) => VT_TIMESTAMP,
            TypedColumn::Vector(_) => VT_VECTOR,
        }
    }

    pub open spec fn len_spec(self) -> nat {
        match self {
            TypedColumn::Int64(v) => v@.len(),
            TypedColumn::Float64(v) => v@.len(),
            TypedColumn::String(v) => v@.len(),
            TypedColumn::Binary(v) => v@.len(),
            TypedColumn::Variant(v) => v@.len(),
            TypedColumn::Boolean(v) => v@.len(),
            TypedColumn::Date(v) => v@.len(),
            TypedColumn::Timestamp(v) => v@.len(),
            TypedColumn::Vector(v) => v@.len(),
        }
    }

    pub open spec fn payload_spec(self) -> Seq<u8> {
        match self {
            TypedColumn::Float64(v) => raw_words_payload(VT_FLOAT64, v@),
            TypedColumn::String(v) => raw_strings_payload(VT_STRING, text_bytes(v@)),
            TypedColumn::Binary(v) => le_bytes(v@.len(), 4) + concat(
                string_parts(byte_views(v@)),
            ),
            TypedColumn::Variant(v) => raw_strings_payload(VT_VARIANT, text_bytes(v@)),
            TypedColumn::Vector(v) => seq![VT_VECTOR] + le_bytes(v@.len(), 4) + concat(
                vector_parts(v@),
            ),
            _ => ints_payload(self.ints(), auto_encoding(self.ints())),
        }
    }

    pub open spec fn encoding_spec(self) -> u8 {
        match self {
            TypedColumn::Float64(_) => ENC_RAW,
            TypedColumn::String(_) => ENC_RAW,
            TypedColumn::Binary(_) => ENC_RAW,
            TypedColumn::Variant(_) => ENC_RAW,
            TypedColumn::Vector(_) => ENC_RAW,
            _ => auto_encoding(self.ints()),
        }
    }

    pub open spec fn stats_spec(self) -> Option<(Seq<u8>, Seq<u8>)> {
        if self.len_spec() == 0 {
            None
        } else {
            match self {
                TypedColumn::Float64(v) => float_stats(v@),
                TypedColumn::Boolean(v) => bool_stats(v@),
                TypedColumn::Int64(v) => int_stats(v@),
                TypedColumn::Date(v) => int_stats(v@),
                TypedColumn::Timestamp(v) => int_stats(v@),
                _ => None,
            }
        }
    }

    /// The column's value type.
    pub fn vtype(&self) -> (r: u8)
        ensures
            r == self.vtype_spec(),
    {
        match self {
            TypedColumn::Int64(_) => VT_INT64,
            TypedColumn::Float64(_) => VT_FLOAT64,
            TypedColumn::String(_) => VT_STRING,
            TypedColumn::Binary(_) => VT_BINARY,
            TypedColumn::Variant(_) => VT_VARIANT,
            TypedColumn::Boolean(_) => VT_BOOLEAN,
            TypedColumn::Date(_) => VT_DATE,
            TypedColumn::Timestamp(_) => VT_TIMESTAMP,
            TypedColumn::Vector(_) => VT_VECTOR,
        }
    }

    /// How many values the column has.
    pub fn len(&self) -> (r: usize)
        ensures
            r == self.len_spec(),
    {
        match self {
            TypedColumn::Int64(v) => v.len(),
            TypedColumn::Float64(v) => v.len(),
            TypedColumn::String(v) => v.len(),
            TypedColumn::Binary(v) => v.len(),
            TypedColumn::Variant(v) => v.len(),
            TypedColumn::Boolean(v) => v.len(),
            TypedColumn::Date(v) => v.len(),
            TypedColumn::Timestamp(v) => v.len(),
            TypedColumn::Vector(v) => v.len(),
        }
    }

    pub fn is_empty(&self) -> (r: bool)
        ensures
            r == (self.len_spec() == 0),
    {
        self.len() == 0
    }

    /// The column's payload.
    pub fn encode_payload(&self) -> (r: Vec<u8>)
        ensures
            r@ == self.payload_spec(),
    {
        match self {
            TypedColumn::Int64(v) => encode_i64_auto(v).1,
            TypedColumn::Float64(v) => encode_raw_f64_payload(v),
            TypedColumn::String(v) => encode_texts(VT_STRING, v),
            TypedColumn::Binary(v) => encode_binary(v),
            TypedColumn::Variant(v) => encode_texts(VT_VARIANT, v),
            TypedColumn::Boolean(v) => {
                let ints = ints_of_bools(v);
                encode_i64_auto(&ints).1
            },
            TypedColumn::Date(v) => encode_i64_auto(v).1,
            TypedColumn::Timestamp(v) => encode_i64_auto(v).1,
            TypedColumn::Vector(v) => encode_vectors(v),
        }
    }

    /// The encoding of the column's payload.
    pub fn encode_encoding(&self) -> (r: u8)
        ensures
            r == self.encoding_spec(),
    {
        match self {
            TypedColumn::Int64(v) => encode_i64_auto(v).0,
            TypedColumn::Boolean(v) => {
                let ints = ints_of_bools(v);
                encode_i64_auto(&ints).0
            },
            TypedColumn::Date(v) => encode_i64_auto(v).0,
            TypedColumn::Timestamp(v) => encode_i64_auto(v).0,
            _ => ENC_RAW,
        }
    }

    /// The least and greatest value, eight bytes each, where the type has them
    /// and the column has values.
    pub fn min_max_bytes(&self) -> (r: Option<(Vec<u8>, Vec<u8>)>)
        ensures
            match r {
                Some((min, max)) => self.stats_spec() == Some((min@, max@)),
                None => self.stats_spec() is None,
            },
    {
        if self.len() == 0 {
            return None;
        }
        match self {
            TypedColumn::Int64(v) => Some(int_stats_of(v)),
            TypedColumn::Float64(v) => Some(float_stats_of(v)),
            TypedColumn::Boolean(v) => {
                let mut min: Vec<u8> = Vec::new();
                let mut max: Vec<u8> = Vec::new();
                push_i64(&mut min, 0);
                if any_true(v) {
                    push_i64(&mut max, 1);
                } else {
                    push_i64(&mut max, 0);
                }
                proof {
                    assert(min@ =~= le_bytes(0, 8));
                    let want = bool_stats(v@)->0;
                    assert(max@ =~= want.1);
                }
                Some((min, max))
            },
            TypedColumn::Date(v) => Some(int_stats_of(v)),
            TypedColumn::Timestamp(v) => Some(int_stats_of(v)),
            _ => None,
        }
    }
}

fn any_true(v: &Vec<bool>) -> (r: bool)
    ensures
        r == v@.contains(true),
{
    let mut i: usize = 0;
    while i < v.len()
        invariant
            i <= v@.len(),
            forall|k: int| 0 <= k < i ==> !(#[trigger] v@[k]),
        decreases v@.len() - i,
    {
        if v[i] {
            proof {
                assert(v@[i as int]);
            }
            return true;
        }
        i = i + 1;
    }
    false
}

fn ints_of_bools(v: &Vec<bool>) -> (r: Vec<i64>)
    ensures
        r@ == bool_ints(v@),
{
    let mut out: Vec<i64> = Vec::with_capacity(v.len());
    let mut i: usize = 0;
    while i < v.len()
        invariant
            i <= v@.len(),
            out@ == bool_ints(v@).take(i as int),
        decreases v@.len() - i,
    {
        out.push(
            if v[i] {
                1
            } else {
                0
            },
        );
        proof {
            let all = bool_ints(v@);
            assert(all.take(i as int + 1) =~= all.take(i as int).push(all[i as int]));
        }
        i = i + 1;
    }
    proof {
        assert(bool_ints(v@).take(i as int) =~= bool_ints(v@));
    }
    out
}

proof fn lemma_next_part(parts: Seq<Seq<u8>>, i: int)
    requires
        0 <= i < parts.len(),
    ensures
        concat(parts.take(i + 1)) == concat(parts.take(i)) + parts[i],
{
    assert(parts.take(i + 1) =~= parts.take(i).push(parts[i]));
    lemma_concat_push(parts.take(i), parts[i]);
}

fn encode_texts(vtype: u8, v: &Vec<String>) -> (r: Vec<u8>)
    ensures
        r@ == raw_strings_payload(vtype, text_bytes(v@)),
{
    let mut out: Vec<u8> = Vec::new();
    out.push(vtype);
    let ghost start = seq![vtype];
    let ghost parts = string_parts(text_bytes(v@));
    let mut i: usize = 0;
    proof {
        assert(parts.take(0) =~= Seq::<Seq<u8>>::empty());
        assert(out@ =~= start + concat(parts.take(0)));
    }
    while i < v.len()
        invariant
            i <= v@.len(),
            parts == string_parts(text_bytes(v@)),
            out@ == start + concat(parts.take(i as int)),
        decreases v@.len() - i,
    {
        push_string(&mut out, v[i].as_str().as_bytes());
        proof {
            lemma_next_part(parts, i as int);
            assert(out@ =~= start + concat(parts.take(i as int + 1)));
        }
        i = i + 1;
    }
    proof {
        assert(parts.take(i as int) =~= parts);
    }
    out
}

fn encode_binary(v: &Vec<Vec<u8>>) -> (r: Vec<u8>)
    ensures
        r@ == le_bytes(v@.len(), 4) + concat(string_parts(byte_views(v@))),
{
    let mut out: Vec<u8> = Vec::new();
    push_le(&mut out, v.len() as u64, 4);
    let ghost start = le_bytes(v@.len(), 4);
    let ghost parts = string_parts(byte_views(v@));
    let mut i: usize = 0;
    proof {
        assert(parts.take(0) =~= Seq::<Seq<u8>>::empty());
        assert(out@ =~= start + concat(parts.take(0)));
    }
    while i < v.len()
        invariant
            i <= v@.len(),
            parts == string_parts(byte_views(v@)),
            out@ == start + concat(parts.take(i as int)),
        decreases v@.len() - i,
    {
        push_string(&mut out, &v[i]);
        proof {
            lemma_next_part(parts, i as int);
            assert(out@ =~= start + concat(parts.take(i as int + 1)));
        }
        i = i + 1;
    }
    proof {
        assert(parts.take(i as int) =~= parts);
    }
    out
}

fn push_halves(out: &mut Vec<u8>, v: &Vec<u32>)
    ensures
        final(out)@ == old(out)@ + concat(half_parts(v@)),
{
    let ghost start = out@;
    let ghost parts = half_parts(v@);
    let mut i: usize = 0;
    proof {
        assert(parts.take(0) =~= Seq::<Seq<u8>>::empty());
        assert(start + concat(parts.take(0)) =~= start);
    }
    while i < v.len()
        invariant
            i <= v@.len(),
            parts == half_parts(v@),
            out@ == start + concat(parts.take(i as int)),
        decreases v@.len() - i,
    {
        push_le(out, v[i] as u64, 4);
        proof {
            lemma_next_part(parts, i as int);
            assert(out@ =~= start + concat(parts.take(i as int + 1)));
        }
        i = i + 1;
    }
    proof {
        assert(parts.take(i as int) =~= parts);
    }
}

fn encode_vectors(v: &Vec<Vec<u32>>) -> (r: Vec<u8>)
    ensures
        r@ == seq![VT_VECTOR] + le_bytes(v@.len(), 4) + concat(vector_parts(v@)),
{
    let mut out: Vec<u8> = Vec::new();
    out.push(VT_VECTOR);
    push_le(&mut out, v.len() as u64, 4);
    let ghost start = seq![VT_VECTOR] + le_bytes(v@.len(), 4);
    let ghost parts = vector_parts(v@);
    let mut i: usize = 0;
    proof {
        assert(parts.take(0) =~= Seq::<Seq<u8>>::empty());
        assert(out@ =~= start + concat(parts.take(0)));
    }
    while i < v.len()
        invariant
            i <= v@.len(),
            parts == vector_parts(v@),
            out@ == start + concat(parts.take(i as int)),
        decreases v@.len() - i,
    {
        push_le(&mut out, v[i].len() as u64, 4);
        push_halves(&mut out, &v[i]);
        proof {
            lemma_next_part(parts, i as int);
            assert(out@ =~= start + concat(parts.take(i as int + 1)));
        }
        i = i + 1;
    }
    proof {
        assert(parts.take(i as int) =~= parts);
    }
    out
}

/// What a typed column puts into a blob.
pub open spec fn typed_part(name: Seq<u8>, col: TypedColumn) -> Part {
    Part {
        name,
        vtype: col.vtype_spec(),
        enc: col.encoding_spec(),
        stats: col.stats_spec(),
        null_count: 0,
        payload: col.payload_spec(),
    }
}

pub open spec fn typed_parts(columns: Seq<(&str, TypedColumn)>) -> Seq<Part> {
    Seq::new(columns.len(), |i: int| typed_part(columns[i].0.spec_bytes(), columns[i].1))
}

/// The row count of the first column; 0 where there is none.
pub open spec fn typed_rows(columns: Seq<(&str, TypedColumn)>) -> nat {
    if columns.len() > 0 {
        columns[0].1.len_spec()
    } else {
        0
    }
}

/// A blob of typed columns.
pub fn pnd2_encode_multi_typed(columns: &[(&str, TypedColumn)]) -> (r: Vec<u8>)
    ensures
        r@ == blob_bytes(typed_rows(columns@), typed_parts(columns@)),
{
    let mut cols: Vec<EncodedColumn> = Vec::new();
    let mut i: usize = 0;
    proof {
        assert(part_views(cols@) =~= typed_parts(columns@).take(0));
    }
    while i < columns.len()
        invariant
            i <= columns@.len(),
            part_views(cols@) == typed_parts(columns@).take(i as int),
        decreases columns@.len() - i,
    {
        let ghost before = part_views(cols@);
        let col = &columns[i].1;
        let c = EncodedColumn {
            name: copy_bytes(columns[i].0.as_bytes()),
            vtype: col.vtype(),
            enc: col.encode_encoding(),
            stats: col.min_max_bytes(),
            null_count: 0,
            payload: col.encode_payload(),
        };
        let ghost p = c@;
        cols.push(c);
        proof {
            let all = typed_parts(columns@);
            assert(p == all[i as int]);
            assert(part_views(cols@) =~= before.push(p));
            assert(all.take(i as int + 1) =~= all.take(i as int).push(all[i as int]));
        }
        i = i + 1;
    }
    proof {
        assert(typed_parts(columns@).take(i as int) =~= typed_parts(columns@));
    }
    let n_rows: usize = if columns.len() > 0 {
        columns[0].1.len()
    } else {
        0
    };
    assemble(&cols, n_rows)
}

} // verus!
