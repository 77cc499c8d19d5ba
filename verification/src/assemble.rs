//! Blobs from encoded columns.

use vstd::prelude::*;
use vstd::string::*;
use crate::bytes::{as_unsigned, copy_range, push_bytes, push_i64, push_le};
use crate::constants::{magic, pnd2_magic, COMPRESSION_NONE, ENC_RAW, FLAG_HAS_STATS, PND2_VERSION, VT_FLOAT64,
    VT_INT64, VT_STRING};
use crate::encode::{auto_encoding, encode_i64_auto, encode_raw_f64_payload, encode_raw_i64_payload,
    encode_raw_str_payload, ints_payload, push_string, raw_strings_payload, raw_words_payload, str_bytes,
    to_words};
use crate::float::{f64_greatest, f64_least, f64_min_max};
use crate::numeral::le_bytes;
use crate::seqs::{concat, greatest, least, lemma_concat_push, min_max};

verus! {

/// A column ready to be put into a blob.
pub struct EncodedColumn {
    pub name: Vec<u8>,
    pub vtype: u8,
    pub enc: u8,
    pub stats: Option<(Vec<u8>, Vec<u8>)>,
    pub null_count: u32,
    pub payload: Vec<u8>,
}

/// What goes into a blob for one column.
pub struct Part {
    pub name: Seq<u8>,
    pub vtype: u8,
    pub enc: u8,
    pub stats: Option<(Seq<u8>, Seq<u8>)>,
    pub null_count: nat,
    pub payload: Seq<u8>,
}

impl View for EncodedColumn {
    type V = Part;

    open spec fn view(&self) -> Part {
        Part {
            name: self.name@,
            vtype: self.vtype,
            enc: self.enc,
            stats: match self.stats {
                Some((min, max)) => Some((min@, max@)),
                None => None,
            },
            null_count: self.null_count as nat,
            payload: self.payload@,
        }
    }
}

pub open spec fn part_views(v: Seq<EncodedColumn>) -> Seq<Part> {
    Seq::new(v.len(), |i: int| v[i]@)
}

/// A schema entry: the name with its length in one byte, the type, the encoding.
pub open spec fn schema_part(p: Part) -> Seq<u8> {
    le_bytes(p.name.len(), 1) + p.name + seq![p.vtype, p.enc]
}

/// A stats entry: whether there are min and max, these, the null count.
pub open spec fn stats_part(p: Part) -> Seq<u8> {
    (match p.stats {
        Some((min, max)) => seq![1u8] + min + max,
        None => seq![0u8],
    }) + le_bytes(p.null_count, 4)
}

/// A payload with its length before it.
pub open spec fn payload_part(p: Part) -> Seq<u8> {
    le_bytes(p.payload.len(), 4) + p.payload
}

pub open spec fn schema_parts(parts: Seq<Part>) -> Seq<Seq<u8>> {
    Seq::new(parts.len(), |i: int| schema_part(parts[i]))
}

pub open spec fn stats_parts(parts: Seq<Part>) -> Seq<Seq<u8>> {
    Seq::new(parts.len(), |i: int| stats_part(parts[i]))
}

pub open spec fn payload_parts(parts: Seq<Part>) -> Seq<Seq<u8>> {
    Seq::new(parts.len(), |i: int| payload_part(parts[i]))
}

/// The inner data of a blob.
pub open spec fn inner_bytes(parts: Seq<Part>) -> Seq<u8> {
    concat(schema_parts(parts)) + concat(stats_parts(parts)) + concat(payload_parts(parts))
}

/// A blob's header, without compression.
pub open spec fn header_bytes(n_rows: nat, n_columns: nat) -> Seq<u8> {
    magic() + seq![PND2_VERSION, FLAG_HAS_STATS] + le_bytes(n_rows, 4) + le_bytes(n_columns, 2)
        + seq![COMPRESSION_NONE]
}

/// A blob.
pub open spec fn blob_bytes(n_rows: nat, parts: Seq<Part>) -> Seq<u8> {
    header_bytes(n_rows, parts.len()) + inner_bytes(parts)
}

proof fn lemma_parts_take(parts: Seq<Seq<u8>>, i: int)
    requires
        0 <= i < parts.len(),
    ensures
        concat(parts.take(i + 1)) == concat(parts.take(i)) + parts[i],
{
    assert(parts.take(i + 1) =~= parts.take(i).push(parts[i]));
    lemma_concat_push(parts.take(i), parts[i]);
}

fn push_schemas(out: &mut Vec<u8>, cols: &Vec<EncodedColumn>)
    ensures
        final(out)@ == old(out)@ + concat(schema_parts(part_views(cols@))),
{
    let ghost start = out@;
    let ghost parts = schema_parts(part_views(cols@));
    let mut i: usize = 0;
    proof {
        assert(parts.take(0) =~= Seq::<Seq<u8>>::empty());
        assert(start + concat(parts.take(0)) =~= start);
    }
    while i < cols.len()
        invariant
            i <= cols@.len(),
            parts == schema_parts(part_views(cols@)),
            out@ == start + concat(parts.take(i as int)),
        decreases cols@.len() - i,
    {
        push_le(out, cols[i].name.len() as u64, 1);
        push_bytes(out, &cols[i].name);
        out.push(cols[i].vtype);
        out.push(cols[i].enc);
        proof {
            lemma_parts_take(parts, i as int);
            assert(out@ =~= start + concat(parts.take(i as int + 1)));
        }
        i = i + 1;
    }
    proof {
        assert(parts.take(i as int) =~= parts);
    }
}

fn push_stats(out: &mut Vec<u8>, cols: &Vec<EncodedColumn>)
    ensures
        final(out)@ == old(out)@ + concat(stats_parts(part_views(cols@))),
{
    let ghost start = out@;
    let ghost parts = stats_parts(part_views(cols@));
    let mut i: usize = 0;
    proof {
        assert(parts.take(0) =~= Seq::<Seq<u8>>::empty());
        assert(start + concat(parts.take(0)) =~= start);
    }
    while i < cols.len()
        invariant
            i <= cols@.len(),
            parts == stats_parts(part_views(cols@)),
            out@ == start + concat(parts.take(i as int)),
        decreases cols@.len() - i,
    {
        match &cols[i].stats {
            Some((min, max)) => {
                out.push(1);
                push_bytes(out, min);
                push_bytes(out, max);
            },
            None => {
                out.push(0);
            },
        }
        push_le(out, cols[i].null_count as u64, 4);
        proof {
            lemma_parts_take(parts, i as int);
            assert(parts[i as int] == stats_part(cols@[i as int]@));
            assert(out@ =~= start + concat(parts.take(i as int + 1)));
        }
        i = i + 1;
    }
    proof {
        assert(parts.take(i as int) =~= parts);
    }
}

fn push_payloads(out: &mut Vec<u8>, cols: &Vec<EncodedColumn>)
    ensures
        final(out)@ == old(out)@ + concat(payload_parts(part_views(cols@))),
{
    let ghost start = out@;
    let ghost parts = payload_parts(part_views(cols@));
    let mut i: usize = 0;
    proof {
        assert(parts.take(0) =~= Seq::<Seq<u8>>::empty());
        assert(start + concat(parts.take(0)) =~= start);
    }
    while i < cols.len()
        invariant
            i <= cols@.len(),
            parts == payload_parts(part_views(cols@)),
            out@ == start + concat(parts.take(i as int)),
        decreases cols@.len() - i,
    {
        push_string(out, &cols[i].payload);
        proof {
            lemma_parts_take(parts, i as int);
            assert(out@ =~= start + concat(parts.take(i as int + 1)));
        }
        i = i + 1;
    }
    proof {
        assert(parts.take(i as int) =~= parts);
    }
}

/// Puts encoded columns into a blob.
pub fn assemble(cols: &Vec<EncodedColumn>, n_rows: usize) -> (r: Vec<u8>)
    ensures
        r@ == blob_bytes(n_rows as nat, part_views(cols@)),
{
    let mut out: Vec<u8> = Vec::new();
    let magic_bytes = pnd2_magic();
    push_bytes(&mut out, &magic_bytes);
    out.push(PND2_VERSION);
    out.push(FLAG_HAS_STATS);
    push_le(&mut out, n_rows as u64, 4);
    push_le(&mut out, cols.len() as u64, 2);
    out.push(COMPRESSION_NONE);
    proof {
        assert(out@ =~= header_bytes(n_rows as nat, cols@.len()));
    }
    push_schemas(&mut out, cols);
    push_stats(&mut out, cols);
    push_payloads(&mut out, cols);
    proof {
        assert(out@ =~= blob_bytes(n_rows as nat, part_views(cols@)));
    }
    out
}

/// The least and greatest of signed numbers, as stats.
pub open spec fn int_stats(values: Seq<i64>) -> Option<(Seq<u8>, Seq<u8>)> {
    Some(
        (le_bytes(as_unsigned(least(values)), 8), le_bytes(as_unsigned(greatest(values)), 8)),
    )
}

/// The least and greatest of floats, as stats.
pub open spec fn float_stats(values: Seq<u64>) -> Option<(Seq<u8>, Seq<u8>)> {
    Some((le_bytes(f64_least(values) as nat, 8), le_bytes(f64_greatest(values) as nat, 8)))
}

/// The one-letter name of the column in a single-column blob: `v`.
pub open spec fn single_name() -> Seq<u8> {
    seq![118u8]
}

/// A column of signed numbers, RAW, with stats.
pub open spec fn raw_ints_part(name: Seq<u8>, values: Seq<i64>) -> Part {
    Part {
        name,
        vtype: VT_INT64,
        enc: ENC_RAW,
        stats: int_stats(values),
        null_count: 0,
        payload: raw_words_payload(VT_INT64, to_words(values)),
    }
}

/// A column of floats, RAW, with stats.
pub open spec fn raw_floats_part(name: Seq<u8>, values: Seq<u64>) -> Part {
    Part {
        name,
        vtype: VT_FLOAT64,
        enc: ENC_RAW,
        stats: float_stats(values),
        null_count: 0,
        payload: raw_words_payload(VT_FLOAT64, values),
    }
}

/// A column of texts, RAW, without stats.
pub open spec fn raw_strs_part(name: Seq<u8>, strs: Seq<Seq<u8>>) -> Part {
    Part {
        name,
        vtype: VT_STRING,
        enc: ENC_RAW,
        stats: None,
        null_count: 0,
        payload: raw_strings_payload(VT_STRING, strs),
    }
}

pub fn int_stats_of(values: &[i64]) -> (r: (Vec<u8>, Vec<u8>))
    ensures
        Some((r.0@, r.1@)) == int_stats(values@),
{
    let (lo, hi) = min_max(values);
    let mut min: Vec<u8> = Vec::new();
    let mut max: Vec<u8> = Vec::new();
    push_i64(&mut min, lo);
    push_i64(&mut max, hi);
    proof {
        assert(min@ =~= le_bytes(as_unsigned(lo), 8));
        assert(max@ =~= le_bytes(as_unsigned(hi), 8));
    }
    (min, max)
}

pub fn float_stats_of(values: &[u64]) -> (r: (Vec<u8>, Vec<u8>))
    ensures
        Some((r.0@, r.1@)) == float_stats(values@),
{
    let (lo, hi) = f64_min_max(values);
    let mut min: Vec<u8> = Vec::new();
    let mut max: Vec<u8> = Vec::new();
    push_le(&mut min, lo, 8);
    push_le(&mut max, hi, 8);
    proof {
        assert(min@ =~= le_bytes(lo as nat, 8));
        assert(max@ =~= le_bytes(hi as nat, 8));
    }
    (min, max)
}

pub fn raw_ints_column(name: Vec<u8>, values: &[i64]) -> (r: EncodedColumn)
    ensures
        r@ == raw_ints_part(name@, values@),
{
    EncodedColumn {
        name,
        vtype: VT_INT64,
        enc: ENC_RAW,
        stats: Some(int_stats_of(values)),
        null_count: 0,
        payload: encode_raw_i64_payload(values),
    }
}

pub fn raw_floats_column(name: Vec<u8>, values: &[u64]) -> (r: EncodedColumn)
    ensures
        r@ == raw_floats_part(name@, values@),
{
    EncodedColumn {
        name,
        vtype: VT_FLOAT64,
        enc: ENC_RAW,
        stats: Some(float_stats_of(values)),
        null_count: 0,
        payload: encode_raw_f64_payload(values),
    }
}

pub fn raw_strs_column(name: Vec<u8>, values: &[&str]) -> (r: EncodedColumn)
    ensures
        r@ == raw_strs_part(name@, str_bytes(values@)),
{
    EncodedColumn {
        name,
        vtype: VT_STRING,
        enc: ENC_RAW,
        stats: None,
        null_count: 0,
        payload: encode_raw_str_payload(values),
    }
}

fn single_column(col: EncodedColumn, n_rows: usize) -> (r: Vec<u8>)
    ensures
        r@ == blob_bytes(n_rows as nat, seq![col@]),
{
    let ghost part = col@;
    let mut cols: Vec<EncodedColumn> = Vec::new();
    cols.push(col);
    proof {
        assert(part_views(cols@) =~= seq![part]);
    }
    assemble(&cols, n_rows)
}

fn name_v() -> (r: Vec<u8>)
    ensures
        r@ == single_name(),
{
    let mut name: Vec<u8> = Vec::new();
    name.push(118);
    proof {
        assert(name@ =~= single_name());
    }
    name
}

/// A blob of one column `v` of floats, given as their bit patterns.
pub fn pnd2_encode_f64(values: &[u64]) -> (r: Vec<u8>)
    ensures
        r@ == blob_bytes(values@.len(), seq![raw_floats_part(single_name(), values@)]),
{
    single_column(raw_floats_column(name_v(), values), values.len())
}

/// A blob of one column `v` of texts.
pub fn pnd2_encode_str(values: &[&str]) -> (r: Vec<u8>)
    ensures
        r@ == blob_bytes(values@.len(), seq![raw_strs_part(single_name(), str_bytes(values@))]),
{
    single_column(raw_strs_column(name_v(), values), values.len())
}

/// A blob of one column `v` of signed numbers.
pub fn pnd2_encode_i64(values: &[i64]) -> (r: Vec<u8>)
    ensures
        r@ == blob_bytes(values@.len(), seq![raw_ints_part(single_name(), values@)]),
{
    single_column(raw_ints_column(name_v(), values), values.len())
}

/// A column for `pnd2_encode_multi`, whose payload the caller laid out.
pub struct EncodeMultiColumn<'a> {
    pub name: &'a str,
    pub vtype: u8,
    pub payload: &'a [u8],
    /// Min, max and null count.
    pub stats: Option<(&'a [u8], &'a [u8], u32)>,
}

/// The name as far as one length byte reaches.
pub open spec fn short_name(name: Seq<u8>) -> Seq<u8> {
    if name.len() <= 255 {
        name
    } else {
        name.take(255)
    }
}

/// What `pnd2_encode_multi` puts into the blob for a column.
pub open spec fn multi_part(c: EncodeMultiColumn) -> Part {
    Part {
        name: short_name(c.name.spec_bytes()),
        vtype: c.vtype,
        enc: ENC_RAW,
        stats: match c.stats {
            Some((min, max, _)) => Some((min@, max@)),
            None => None,
        },
        null_count: match c.stats {
            Some((_, _, nulls)) => nulls as nat,
            None => 0,
        },
        payload: c.payload@,
    }
}

pub open spec fn multi_parts(columns: Seq<EncodeMultiColumn>) -> Seq<Part> {
    Seq::new(columns.len(), |i: int| multi_part(columns[i]))
}

fn multi_column(c: &EncodeMultiColumn) -> (r: EncodedColumn)
    ensures
        r@ == multi_part(*c),
{
    let name = c.name.as_bytes();
    let n: usize = if name.len() <= 255 {
        name.len()
    } else {
        255
    };
    let short = copy_range(name, 0, n);
    proof {
        assert(short@ =~= short_name(c.name.spec_bytes()));
    }
    let payload = copy_range(c.payload, 0, c.payload.len());
    proof {
        assert(payload@ =~= c.payload@);
    }
    match c.stats {
        Some((min, max, nulls)) => {
            let lo = copy_range(min, 0, min.len());
            let hi = copy_range(max, 0, max.len());
            proof {
                assert(lo@ =~= min@);
                assert(hi@ =~= max@);
            }
            EncodedColumn {
                name: short,
                vtype: c.vtype,
                enc: ENC_RAW,
                stats: Some((lo, hi)),
                null_count: nulls,
                payload,
            }
        },
        None => EncodedColumn {
            name: short,
            vtype: c.vtype,
            enc: ENC_RAW,
            stats: None,
            null_count: 0,
            payload,
        },
    }
}

/// A blob of several columns, RAW, with payloads that the callers laid out.
pub fn pnd2_encode_multi(columns: &[EncodeMultiColumn], n_rows: usize) -> (r: Vec<u8>)
    ensures
        r@ == blob_bytes(n_rows as nat, multi_parts(columns@)),
{
    let mut cols: Vec<EncodedColumn> = Vec::new();
    let mut i: usize = 0;
    proof {
        assert(part_views(cols@) =~= multi_parts(columns@).take(0));
    }
    while i < columns.len()
        invariant
            i <= columns@.len(),
            part_views(cols@) == multi_parts(columns@).take(i as int),
        decreases columns@.len() - i,
    {
        let ghost before = part_views(cols@);
        let c = multi_column(&columns[i]);
        let ghost p = c@;
        cols.push(c);
        proof {
            let all = multi_parts(columns@);
            assert(part_views(cols@) =~= before.push(p));
            assert(all.take(i as int + 1) =~= all.take(i as int).push(all[i as int]));
        }
        i = i + 1;
    }
    proof {
        assert(multi_parts(columns@).take(i as int) =~= multi_parts(columns@));
    }
    assemble(&cols, n_rows)
}

/// A column of signed numbers under the encoding that suits them. An empty
/// column has no stats.
pub open spec fn auto_part(name: Seq<u8>, values: Seq<i64>) -> Part {
    Part {
        name,
        vtype: VT_INT64,
        enc: auto_encoding(values),
        stats: if values.len() > 0 {
            int_stats(values)
        } else {
            None
        },
        null_count: 0,
        payload: ints_payload(values, auto_encoding(values)),
    }
}

pub open spec fn auto_parts(columns: Seq<(&str, &[i64])>) -> Seq<Part> {
    Seq::new(columns.len(), |i: int| auto_part(columns[i].0.spec_bytes(), columns[i].1@))
}

/// The row count of the first column; 0 where there is none.
pub open spec fn auto_rows(columns: Seq<(&str, &[i64])>) -> nat {
    if columns.len() > 0 {
        columns[0].1@.len()
    } else {
        0
    }
}

/// A blob of columns of signed numbers, each under the encoding that suits it.
pub fn pnd2_encode_i64_auto(columns: &[(&str, &[i64])]) -> (r: Vec<u8>)
    ensures
        r@ == blob_bytes(auto_rows(columns@), auto_parts(columns@)),
{
    let mut cols: Vec<EncodedColumn> = Vec::new();
    let mut i: usize = 0;
    proof {
        assert(part_views(cols@) =~= auto_parts(columns@).take(0));
    }
    while i < columns.len()
        invariant
            i <= columns@.len(),
            part_views(cols@) == auto_parts(columns@).take(i as int),
        decreases columns@.len() - i,
    {
        let ghost before = part_views(cols@);
        let (name, values) = columns[i];
        let bytes = name.as_bytes();
        let owned = copy_range(bytes, 0, bytes.len());
        proof {
            assert(owned@ =~= name.spec_bytes());
        }
        let (enc, payload) = encode_i64_auto(values);
        let stats = if values.len() > 0 {
            Some(int_stats_of(values))
        } else {
            None
        };
        let c = EncodedColumn { name: owned, vtype: VT_INT64, enc, stats, null_count: 0, payload };
        let ghost p = c@;
        cols.push(c);
        proof {
            let all = auto_parts(columns@);
            assert(p == all[i as int]);
            assert(part_views(cols@) =~= before.push(p));
            assert(all.take(i as int + 1) =~= all.take(i as int).push(all[i as int]));
        }
        i = i + 1;
    }
    proof {
        assert(auto_parts(columns@).take(i as int) =~= auto_parts(columns@));
    }
    let n_rows: usize = if columns.len() > 0 {
        columns[0].1.len()
    } else {
        0
    };
    assemble(&cols, n_rows)
}

} // verus!
