//! What was encoded is what decoding gives back.

use vstd::prelude::*;
use vstd::arithmetic::power2::*;
use vstd::string::*;
use crate::assemble::{auto_part, auto_parts, auto_rows, blob_bytes, header_bytes, inner_bytes, payload_part,
    payload_parts, raw_floats_part, raw_ints_part, raw_strs_part, schema_part, schema_parts, single_name,
    stats_part, stats_parts, Part};
use crate::blob::{decoded, inner_columns, inner_parts, lemma_filter_all, named_column, payload_spans, projected,
    schema_at, stats_end, wanted, DecodeErrorView, SchemaView};
use crate::bytes::{as_signed, as_unsigned, le_at, lemma_pow2_monotone, lemma_signed_round_trip};
use crate::constants::{
    magic, ENC_BITPACK, ENC_DICT, ENC_RLE, HEADER_LEN, NULL_LEN, VT_BINARY, VT_FLOAT64, VT_INT64, VT_STRING,
    VT_VARIANT,
};
use crate::decode::{
    bitpack_view, cells_column, column_view, dict_cell, dict_entries, dict_view, fields_held,
    raw_strings, raw_view, rle_cells, rle_run, rle_view, strings,
};
use crate::encode::{
    auto_encoding, bitpack_payload, code_width, dict_codes, dict_payload, ints_payload,
    lemma_bit_width, offsets, range_width, raw_strings_payload, raw_words_payload, rle_payload,
    run_parts, same_word, string_parts, to_words, word_parts, word_runs,
};
use crate::float::{f64_greatest, f64_least};
use crate::numeral::{field, fields_fit, le_bytes, le_value, lemma_field_of_packed, lemma_le_bytes_len,
    lemma_le_value_of_bytes, lemma_packed_bound, lemma_pow2_8, packed, packed_len};
use crate::parser::{has_fixed_stats, stat_len};
use crate::seqs::{concat, distinct, greatest, least, lemma_concat_even, lemma_distinct, lemma_extremes};
use crate::typed::{text_bytes, typed_part, typed_parts, typed_rows, TypedColumn};
use crate::types::{bins_column, byte_views, floats_column, ints_column, strs_column, ColumnView};

verus! {

/// `part` stands in `s` at `off`.
pub open spec fn stands_at(s: Seq<u8>, off: int, part: Seq<u8>) -> bool {
    0 <= off && off + part.len() <= s.len() && s.subrange(off, off + part.len()) == part
}

proof fn lemma_split(s: Seq<u8>, off: int, a: Seq<u8>, b: Seq<u8>)
    requires
        stands_at(s, off, a + b),
    ensures
        stands_at(s, off, a),
        stands_at(s, off + a.len(), b),
{
    let whole = s.subrange(off, off + (a + b).len());
    assert(s.subrange(off, off + a.len()) =~= whole.subrange(0, a.len() as int));
    assert((a + b).subrange(0, a.len() as int) =~= a);
    assert(s.subrange(off + a.len(), off + a.len() + b.len()) =~= whole.subrange(
        a.len() as int,
        (a + b).len() as int,
    ));
    assert((a + b).subrange(a.len() as int, (a + b).len() as int) =~= b);
}

/// A number written in `n` bytes reads back.
proof fn lemma_number_at(s: Seq<u8>, off: int, v: nat, n: nat)
    requires
        stands_at(s, off, le_bytes(v, n)),
        v < pow2(8 * n),
    ensures
        le_at(s, off, n as int) == v,
        off + n <= s.len(),
{
    lemma_le_value_of_bytes(v, n);
}

/// What a blob can carry of a column: a name of at most 255 bytes, stats of
/// the width that the type has, a payload whose length fits in 32 bits.
pub open spec fn part_ok(p: Part) -> bool {
    &&& p.name.len() <= 255
    &&& p.payload.len() <= 0xFFFF_FFFF
    &&& match p.stats {
        Some((a, b)) => if has_fixed_stats(p.vtype) {
            a.len() == 8 && b.len() == 8
        } else {
            a.len() == 0 && b.len() == 0
        },
        None => true,
    }
}

pub open spec fn parts_ok(parts: Seq<Part>) -> bool {
    forall|i: int| 0 <= i < parts.len() ==> part_ok(#[trigger] parts[i])
}

pub open spec fn schema_view(p: Part) -> SchemaView {
    SchemaView { name: p.name, vtype: p.vtype, enc: p.enc }
}

pub open spec fn schema_views(parts: Seq<Part>) -> Seq<SchemaView> {
    Seq::new(parts.len(), |i: int| schema_view(parts[i]))
}

proof fn lemma_schema(inner: Seq<u8>, off: int, parts: Seq<Part>)
    requires
        parts_ok(parts),
        stands_at(inner, off, concat(schema_parts(parts))),
    ensures
        schema_at(inner, off, parts.len()) == Some(
            (schema_views(parts), off + concat(schema_parts(parts)).len()),
        ),
    decreases parts.len(),
{
    let all = schema_parts(parts);
    if parts.len() == 0 {
        assert(schema_views(parts) =~= Seq::<SchemaView>::empty());
    } else {
        let p = parts[0];
        let rest = parts.drop_first();
        assert(all.drop_first() =~= schema_parts(rest));
        assert(all[0] == schema_part(p));
        assert(part_ok(p));
        lemma_split(inner, off, schema_part(p), concat(schema_parts(rest)));
        let head = le_bytes(p.name.len(), 1);
        let tail = seq![p.vtype, p.enc];
        assert(schema_part(p) =~= head + (p.name + tail));
        lemma_split(inner, off, head, p.name + tail);
        lemma_le_bytes_len(p.name.len(), 1);
        lemma_split(inner, off + 1, p.name, tail);
        assert(head[0] == p.name.len() as u8) by {
            reveal_with_fuel(le_bytes, 2);
        }
        assert(inner[off] == inner.subrange(off, off + 1)[0]);
        let end = off + 1 + p.name.len();
        let two = inner.subrange(end, end + 2);
        assert(two[0] == inner[end] && two[1] == inner[end + 1]);
        assert(parts_ok(rest)) by {
            assert forall|i: int| 0 <= i < rest.len() implies part_ok(#[trigger] rest[i]) by {
                assert(rest[i] == parts[i + 1]);
            }
        }
        lemma_schema(inner, end + 2, rest);
        assert(seq![schema_view(p)] + schema_views(rest) =~= schema_views(parts));
    }
}

proof fn lemma_stats(inner: Seq<u8>, off: int, parts: Seq<Part>)
    requires
        parts_ok(parts),
        stands_at(inner, off, concat(stats_parts(parts))),
    ensures
        stats_end(inner, off, schema_views(parts)) == Some(off + concat(stats_parts(parts)).len()),
    decreases parts.len(),
{
    let all = stats_parts(parts);
    if parts.len() > 0 {
        let p = parts[0];
        let rest = parts.drop_first();
        assert(all.drop_first() =~= stats_parts(rest));
        assert(all[0] == stats_part(p));
        assert(part_ok(p));
        lemma_split(inner, off, stats_part(p), concat(stats_parts(rest)));
        assert(schema_views(parts).drop_first() =~= schema_views(rest));
        assert(parts_ok(rest)) by {
            assert forall|i: int| 0 <= i < rest.len() implies part_ok(#[trigger] rest[i]) by {
                assert(rest[i] == parts[i + 1]);
            }
        }
        let first = inner.subrange(off, off + stats_part(p).len());
        assert(first[0] == inner[off]);
        lemma_le_bytes_len(p.null_count, 4);
        lemma_stats(inner, off + stats_part(p).len(), rest);
    }
}

/// Where the payloads stand.
pub open spec fn spans_from(off: int, parts: Seq<Part>) -> Seq<(int, int)>
    decreases parts.len(),
{
    if parts.len() == 0 {
        Seq::empty()
    } else {
        let end = off + 4 + parts[0].payload.len();
        seq![(off + 4, end)] + spans_from(end, parts.drop_first())
    }
}

proof fn lemma_payloads(inner: Seq<u8>, off: int, parts: Seq<Part>)
    requires
        parts_ok(parts),
        stands_at(inner, off, concat(payload_parts(parts))),
    ensures
        payload_spans(inner, off, parts.len()) == Some(spans_from(off, parts)),
        spans_from(off, parts).len() == parts.len(),
        forall|i: int|
            0 <= i < parts.len() ==> inner.subrange(
                spans_from(off, parts)[i].0,
                spans_from(off, parts)[i].1,
            ) == (#[trigger] parts[i]).payload,
    decreases parts.len(),
{
    let all = payload_parts(parts);
    let spans = spans_from(off, parts);
    if parts.len() > 0 {
        let p = parts[0];
        let rest = parts.drop_first();
        assert(all.drop_first() =~= payload_parts(rest));
        assert(all[0] == payload_part(p));
        assert(part_ok(p));
        lemma_split(inner, off, payload_part(p), concat(payload_parts(rest)));
        lemma_split(inner, off, le_bytes(p.payload.len(), 4), p.payload);
        lemma_le_bytes_len(p.payload.len(), 4);
        lemma_pow2_8();
        lemma_number_at(inner, off, p.payload.len(), 4);
        assert(parts_ok(rest)) by {
            assert forall|i: int| 0 <= i < rest.len() implies part_ok(#[trigger] rest[i]) by {
                assert(rest[i] == parts[i + 1]);
            }
        }
        let end = off + 4 + p.payload.len();
        lemma_payloads(inner, end, rest);
        assert forall|i: int| 0 <= i < parts.len() implies inner.subrange(spans[i].0, spans[i].1) == (
        #[trigger] parts[i]).payload by {
            if i > 0 {
                assert(spans[i] == spans_from(end, rest)[i - 1]);
                assert(rest[i - 1] == parts[i]);
            }
        }
    }
}

/// The columns that parts stand for.
pub open spec fn part_columns(n_rows: nat, parts: Seq<Part>) -> Seq<ColumnView> {
    Seq::new(parts.len(), |i: int| named_column(schema_view(parts[i]), parts[i].payload, n_rows))
}

#[verifier::rlimit(60)]
proof fn lemma_inner(n_rows: nat, parts: Seq<Part>)
    requires
        parts_ok(parts),
    ensures
        inner_columns(inner_bytes(parts), n_rows, parts.len(), true) == Some(part_columns(n_rows, parts)),
{
    let inner = inner_bytes(parts);
    let a = concat(schema_parts(parts));
    let b = concat(stats_parts(parts));
    let c = concat(payload_parts(parts));
    assert(inner =~= a + (b + c));
    assert(inner.subrange(0, inner.len() as int) =~= inner);
    assert(stands_at(inner, 0, a + (b + c)));
    lemma_split(inner, 0, a, b + c);
    lemma_split(inner, a.len() as int, b, c);
    lemma_schema(inner, 0, parts);
    lemma_stats(inner, a.len() as int, parts);
    lemma_payloads(inner, (a.len() + b.len()) as int, parts);
    let got = inner_columns(inner, n_rows, parts.len(), true)->0;
    let want = part_columns(n_rows, parts);
    let spans = spans_from((a.len() + b.len()) as int, parts);
    assert(got.len() == want.len());
    assert forall|i: int| 0 <= i < want.len() implies got[i] == want[i] by {
        assert(inner.subrange(spans[i].0, spans[i].1) == parts[i].payload);
        assert(schema_views(parts)[i] == schema_view(parts[i]));
    }
    assert(got =~= want);
}

/// Decoding a blob gives back its columns: each under its name, with what its
/// payload holds, in order; under a projection, those that it asks for.
pub proof fn blob_round_trip(n_rows: nat, parts: Seq<Part>, projection: Option<Seq<Seq<u8>>>)
    requires
        n_rows <= 0xFFFF_FFFF,
        parts.len() <= 0xFFFF,
        parts_ok(parts),
    ensures
        decoded(blob_bytes(n_rows, parts), projection) == Ok::<Seq<ColumnView>, DecodeErrorView>(
            projected(part_columns(n_rows, parts), projection),
        ),
{
    let head = header_bytes(n_rows, parts.len());
    let inner = inner_bytes(parts);
    let blob = blob_bytes(n_rows, parts);
    let a = le_bytes(n_rows, 4);
    let b = le_bytes(parts.len(), 2);
    lemma_le_bytes_len(n_rows, 4);
    lemma_le_bytes_len(parts.len(), 2);
    lemma_pow2_8();
    assert(head.len() == 13);
    assert(blob.take(4) =~= magic());
    assert(blob.skip(13) =~= inner);
    assert(blob.subrange(6, 10) =~= a);
    assert(blob.subrange(10, 12) =~= b);
    lemma_number_at(blob, 6, n_rows, 4);
    lemma_number_at(blob, 10, parts.len(), 2);
    lemma_inner(n_rows, parts);
}

proof fn lemma_schema_start(inner: Seq<u8>, m: int, off: int, n: nat)
    requires
        0 <= off <= m <= inner.len(),
        schema_at(inner.take(m), off, n) is Some,
    ensures
        schema_at(inner, off, n) == schema_at(inner.take(m), off, n),
        schema_at(inner, off, n) matches Some((_, end)) && off <= end <= m,
    decreases n,
{
    if n > 0 {
        let part = inner.take(m);
        assert(part[off] == inner[off]);
        let end = off + 1 + inner[off];
        assert(part.subrange(off + 1, end) =~= inner.subrange(off + 1, end));
        lemma_schema_start(inner, m, end + 2, (n - 1) as nat);
    }
}

proof fn lemma_stats_start(inner: Seq<u8>, m: int, off: int, schema: Seq<SchemaView>)
    requires
        0 <= off <= m <= inner.len(),
        stats_end(inner.take(m), off, schema) is Some,
    ensures
        stats_end(inner, off, schema) == stats_end(inner.take(m), off, schema),
        off <= stats_end(inner, off, schema)->0 <= m,
    decreases schema.len(),
{
    if schema.len() > 0 {
        assert(inner.take(m)[off] == inner[off]);
        let values = if inner[off] != 0 {
            off + 1 + 2 * stat_len(schema[0].vtype)
        } else {
            off + 1
        };
        lemma_stats_start(inner, m, values + 4, schema.drop_first());
    }
}

proof fn lemma_payloads_start(inner: Seq<u8>, m: int, off: int, n: nat)
    requires
        0 <= off <= m <= inner.len(),
        payload_spans(inner.take(m), off, n) is Some,
    ensures
        payload_spans(inner, off, n) == payload_spans(inner.take(m), off, n),
        payload_spans(inner, off, n)->0.len() == n,
        n > 0 ==> payload_spans(inner, off, n)->0.last().1 <= m,
    decreases n,
{
    if n > 0 {
        let part = inner.take(m);
        assert(part.subrange(off, off + 4) =~= inner.subrange(off, off + 4));
        let end = off + 4 + le_at(inner, off, 4);
        lemma_payloads_start(inner, m, end, (n - 1) as nat);
        let rest = payload_spans(inner, end, (n - 1) as nat)->0;
        let all = payload_spans(inner, off, n)->0;
        assert(all == seq![(off + 4, end)] + rest);
        if n > 1 {
            assert(all.last() == rest.last());
        }
    }
}

proof fn lemma_spans_end(off: int, parts: Seq<Part>)
    requires
        parts.len() > 0,
    ensures
        spans_from(off, parts).len() == parts.len(),
        spans_from(off, parts).last().1 == off + concat(payload_parts(parts)).len(),
    decreases parts.len(),
{
    let rest = parts.drop_first();
    let end = off + 4 + parts[0].payload.len();
    assert(payload_parts(parts).drop_first() =~= payload_parts(rest));
    assert(payload_parts(parts)[0] == payload_part(parts[0]));
    lemma_le_bytes_len(parts[0].payload.len(), 4);
    assert(concat(payload_parts(parts)) == payload_part(parts[0]) + concat(payload_parts(rest)));
    assert(payload_part(parts[0]).len() == 4 + parts[0].payload.len());
    if rest.len() > 0 {
        lemma_spans_end(end, rest);
        assert(spans_from(off, parts).last() == spans_from(end, rest).last());
    } else {
        assert(spans_from(end, rest) =~= Seq::<(int, int)>::empty());
        assert(payload_parts(rest) =~= Seq::<Seq<u8>>::empty());
        assert(spans_from(off, parts).last() == (off + 4, end));
    }
}

/// A blob that lacks any of its last bytes is refused, wherever it was cut.
pub proof fn cut_blob_is_refused(n_rows: nat, parts: Seq<Part>, projection: Option<Seq<Seq<u8>>>, k: int)
    requires
        n_rows <= 0xFFFF_FFFF,
        parts.len() <= 0xFFFF,
        parts_ok(parts),
        0 <= k < blob_bytes(n_rows, parts).len(),
    ensures
        decoded(blob_bytes(n_rows, parts).take(k), projection) == Err::<Seq<ColumnView>, DecodeErrorView>(
            if k < HEADER_LEN {
                DecodeErrorView::NotPnd2
            } else {
                DecodeErrorView::CutShort
            },
        ),
{
    let head = header_bytes(n_rows, parts.len());
    let inner = inner_bytes(parts);
    let blob = blob_bytes(n_rows, parts);
    let cut = blob.take(k);
    lemma_le_bytes_len(n_rows, 4);
    lemma_le_bytes_len(parts.len(), 2);
    lemma_pow2_8();
    assert(head.len() == 13);
    if k >= 13 {
        let m = k - 13;
        let part = inner.take(m);
        assert(cut.take(4) =~= magic());
        assert(cut.skip(13) =~= part);
        assert(cut.subrange(6, 10) =~= le_bytes(n_rows, 4));
        assert(cut.subrange(10, 12) =~= le_bytes(parts.len(), 2));
        lemma_number_at(cut, 6, n_rows, 4);
        lemma_number_at(cut, 10, parts.len(), 2);
        let n = parts.len();
        let a = concat(schema_parts(parts));
        let b = concat(stats_parts(parts));
        let c = concat(payload_parts(parts));
        if n == 0 {
            assert(schema_parts(parts) =~= Seq::<Seq<u8>>::empty());
            assert(stats_parts(parts) =~= Seq::<Seq<u8>>::empty());
            assert(payload_parts(parts) =~= Seq::<Seq<u8>>::empty());
            assert(inner.len() == 0);
        }
        assert(inner =~= a + (b + c));
        assert(inner.subrange(0, inner.len() as int) =~= inner);
        assert(stands_at(inner, 0, a + (b + c)));
        lemma_split(inner, 0, a, b + c);
        lemma_split(inner, a.len() as int, b, c);
        lemma_schema(inner, 0, parts);
        lemma_stats(inner, a.len() as int, parts);
        lemma_payloads(inner, (a.len() + b.len()) as int, parts);
        if inner_parts(part, n, true) is Some {
            lemma_schema_start(inner, m, 0, n);
            lemma_stats_start(inner, m, a.len() as int, schema_views(parts));
            lemma_payloads_start(inner, m, (a.len() + b.len()) as int, n);
            lemma_spans_end((a.len() + b.len()) as int, parts);
            assert(false);
        }
    }
}

proof fn lemma_words_at(payload: Seq<u8>, off: int, words: Seq<u64>, i: int)
    requires
        stands_at(payload, off, concat(word_parts(words))),
        0 <= i < words.len(),
    ensures
        le_at(payload, off + 8 * i, 8) == words[i],
        payload.subrange(off + 8 * i, off + 8 * i + 8) == le_bytes(words[i] as nat, 8),
        off + 8 * i + 8 <= payload.len(),
        concat(word_parts(words)).len() == 8 * words.len(),
{
    let parts = word_parts(words);
    lemma_word_parts_len(words);
    lemma_pow2_8();
    let all = concat(parts);
    assert(all.subrange(8 * i, 8 * i + 8) == parts[i]);
    assert(payload.subrange(off + 8 * i, off + 8 * i + 8) =~= payload.subrange(
        off,
        off + all.len(),
    ).subrange(8 * i, 8 * i + 8));
    lemma_le_value_of_bytes(words[i] as nat, 8);
}

pub proof fn lemma_word_parts_len(words: Seq<u64>)
    ensures
        concat(word_parts(words)).len() == 8 * words.len(),
        forall|i: int|
            0 <= i < words.len() ==> concat(word_parts(words)).subrange(8 * i, 8 * i + 8)
                == #[trigger] word_parts(words)[i],
{
    let parts = word_parts(words);
    assert forall|i: int| 0 <= i < parts.len() implies (#[trigger] parts[i]).len() == 8 by {
        lemma_le_bytes_len(words[i] as nat, 8);
    }
    lemma_concat_even(parts, 8);
}

/// Signed numbers survive the RAW encoding.
pub proof fn raw_ints_round_trip(values: Seq<i64>)
    ensures
        raw_view(raw_words_payload(VT_INT64, to_words(values)), VT_INT64, values.len())
            == ints_column(VT_INT64, values),
{
    let words = to_words(values);
    let payload = raw_words_payload(VT_INT64, words);
    lemma_word_parts_len(words);
    assert(payload.subrange(1, payload.len() as int) =~= concat(word_parts(words)));
    assert forall|i: int| 0 <= i < values.len() implies #[trigger] as_signed(
        le_at(payload, 1 + 8 * i, 8),
    ) == values[i] by {
        lemma_words_at(payload, 1, words, i);
        lemma_signed_round_trip(values[i]);
    }
    assert(raw_view(payload, VT_INT64, values.len()).ints =~= values);
}

/// Floats survive the RAW encoding, bit for bit.
pub proof fn raw_floats_round_trip(values: Seq<u64>)
    ensures
        raw_view(raw_words_payload(VT_FLOAT64, values), VT_FLOAT64, values.len()) == floats_column(
            VT_FLOAT64,
            values,
        ),
{
    let payload = raw_words_payload(VT_FLOAT64, values);
    lemma_word_parts_len(values);
    assert(payload.subrange(1, payload.len() as int) =~= concat(word_parts(values)));
    assert forall|i: int| 0 <= i < values.len() implies #[trigger] le_at(payload, 1 + 8 * i, 8) as u64
        == values[i] by {
        lemma_words_at(payload, 1, values, i);
    }
    assert(raw_view(payload, VT_FLOAT64, values.len()).floats =~= values);
}

/// Every string is shorter than the length that stands for null.
pub open spec fn lengths_ok(strs: Seq<Seq<u8>>) -> bool {
    forall|i: int| 0 <= i < strs.len() ==> (#[trigger] strs[i]).len() < NULL_LEN
}

proof fn lemma_strings(data: Seq<u8>, off: int, strs: Seq<Seq<u8>>, nulls: bool)
    requires
        lengths_ok(strs),
        stands_at(data, off, concat(string_parts(strs))),
    ensures
        strings(data, off, strs.len(), nulls) == (strs, off + concat(string_parts(strs)).len()),
    decreases strs.len(),
{
    let all = string_parts(strs);
    if strs.len() == 0 {
        assert(strs =~= Seq::<Seq<u8>>::empty());
    } else {
        let s = strs[0];
        let rest = strs.drop_first();
        assert(all.drop_first() =~= string_parts(rest));
        assert(all[0] == le_bytes(s.len(), 4) + s);
        lemma_split(data, off, all[0], concat(string_parts(rest)));
        lemma_split(data, off, le_bytes(s.len(), 4), s);
        lemma_le_bytes_len(s.len(), 4);
        lemma_pow2_8();
        lemma_number_at(data, off, s.len(), 4);
        assert(lengths_ok(rest)) by {
            assert forall|i: int| 0 <= i < rest.len() implies (#[trigger] rest[i]).len() < NULL_LEN by {
                assert(rest[i] == strs[i + 1]);
            }
        }
        lemma_strings(data, off + 4 + s.len(), rest, nulls);
        assert(seq![s] + rest =~= strs);
    }
}

/// Byte strings survive the RAW encoding of texts.
pub proof fn raw_strings_round_trip(vtype: u8, strs: Seq<Seq<u8>>)
    requires
        vtype == VT_STRING || vtype == VT_VARIANT,
        lengths_ok(strs),
    ensures
        raw_view(raw_strings_payload(vtype, strs), vtype, strs.len()) == strs_column(vtype, strs),
{
    let payload = raw_strings_payload(vtype, strs);
    let data = concat(string_parts(strs));
    assert(payload.skip(1) =~= data);
    assert(data.subrange(0, data.len() as int) =~= data);
    lemma_strings(data, 0, strs, true);
    assert(raw_strings(data, strs.len()) =~= strs);
}

/// The words that runs stand for.
pub open spec fn expanded(runs: Seq<(u64, nat)>) -> Seq<u64>
    decreases runs.len(),
{
    if runs.len() == 0 {
        Seq::empty()
    } else {
        expanded(runs.drop_last()) + Seq::new(runs.last().1, |i: int| runs.last().0)
    }
}

proof fn lemma_expanded_head(runs: Seq<(u64, nat)>)
    requires
        runs.len() > 0,
    ensures
        expanded(runs) == Seq::new(runs[0].1, |i: int| runs[0].0) + expanded(runs.drop_first()),
    decreases runs.len(),
{
    let head = Seq::new(runs[0].1, |i: int| runs[0].0);
    if runs.len() == 1 {
        assert(runs.drop_last() =~= Seq::<(u64, nat)>::empty());
        assert(runs.drop_first() =~= Seq::<(u64, nat)>::empty());
        assert(expanded(runs.drop_last()) =~= Seq::<u64>::empty());
        assert(expanded(runs.drop_first()) =~= Seq::<u64>::empty());
        assert(expanded(runs) =~= head + expanded(runs.drop_first()));
    } else {
        lemma_expanded_head(runs.drop_last());
        assert(runs.drop_last().drop_first() =~= runs.drop_first().drop_last());
        assert(expanded(runs) =~= head + expanded(runs.drop_first()));
    }
}

/// Runs stand for the words they were made from: each word is there again, or
/// one equal to it.
pub proof fn runs_expand(words: Seq<u64>, float: bool)
    ensures
        expanded(word_runs(words, float)).len() == words.len(),
        word_runs(words, float).len() <= words.len(),
        forall|i: int|
            0 <= i < words.len() ==> #[trigger] expanded(word_runs(words, float))[i] == words[i]
                || same_word(words[i], expanded(word_runs(words, float))[i], float),
        forall|i: int|
            0 <= i < word_runs(words, float).len() ==> 1 <= (#[trigger] word_runs(words, float)[i]).1
                <= words.len(),
    decreases words.len(),
{
    if words.len() > 0 {
        let t = words.drop_last();
        runs_expand(t, float);
        let prev = word_runs(t, float);
        let runs = word_runs(words, float);
        let w = words.last();
        if prev.len() > 0 && same_word(w, prev.last().0, float) {
            assert(runs.drop_last() =~= prev.drop_last());
            assert(expanded(runs) =~= expanded(prev).push(prev.last().0));
            assert forall|i: int| 0 <= i < runs.len() implies 1 <= (#[trigger] runs[i]).1
                <= words.len() by {
                if i < runs.len() - 1 {
                    assert(runs[i] == prev[i]);
                } else {
                    assert(prev[i].1 <= t.len());
                }
            }
        } else {
            assert(runs.drop_last() =~= prev);
            assert(expanded(runs) =~= expanded(prev).push(w));
            assert forall|i: int| 0 <= i < runs.len() implies 1 <= (#[trigger] runs[i]).1
                <= words.len() by {
                if i < runs.len() - 1 {
                    assert(runs[i] == prev[i]);
                }
            }
        }
        assert forall|i: int| 0 <= i < words.len() implies #[trigger] expanded(runs)[i] == words[i]
            || same_word(words[i], expanded(runs)[i], float) by {
            if i < t.len() {
                assert(t[i] == words[i]);
                assert(expanded(runs)[i] == expanded(prev)[i]);
            }
        }
    } else {
        assert(word_runs(words, float) =~= Seq::<(u64, nat)>::empty());
    }
}

proof fn lemma_rle_cells(data: Seq<u8>, off: int, runs: Seq<(u64, nat)>, vtype: u8)
    requires
        vtype == VT_INT64 || vtype == VT_FLOAT64,
        stands_at(data, off, concat(run_parts(runs))),
        forall|i: int| 0 <= i < runs.len() ==> 1 <= (#[trigger] runs[i]).1 <= 0xFFFF_FFFF,
    ensures
        rle_cells(data, off, runs.len(), expanded(runs).len(), vtype) == word_parts(expanded(runs)),
    decreases runs.len(),
{
    let all = run_parts(runs);
    let cells = rle_cells(data, off, runs.len(), expanded(runs).len(), vtype);
    if runs.len() == 0 {
        assert(cells =~= word_parts(expanded(runs)));
    } else {
        let (w, count) = runs[0];
        let rest = runs.drop_first();
        assert(all.drop_first() =~= run_parts(rest));
        let a = le_bytes(w as nat, 8);
        let b = le_bytes(count, 4);
        assert(all[0] == a + b);
        lemma_split(data, off, all[0], concat(run_parts(rest)));
        lemma_split(data, off, a, b);
        lemma_le_bytes_len(w as nat, 8);
        lemma_le_bytes_len(count, 4);
        lemma_pow2_8();
        lemma_number_at(data, off + 8, count, 4);
        lemma_expanded_head(runs);
        assert forall|i: int| 0 <= i < rest.len() implies 1 <= (#[trigger] rest[i]).1 <= 0xFFFF_FFFF by {
            assert(rest[i] == runs[i + 1]);
        }
        lemma_rle_cells(data, off + 12, rest, vtype);
        assert(expanded(runs).len() == count + expanded(rest).len());
        assert(rle_run(data, off, vtype) == Some((a, count, off + 12)));
        assert(cells == Seq::new(count, |i: int| a) + rle_cells(
            data,
            off + 12,
            rest.len(),
            expanded(rest).len(),
            vtype,
        ));
        assert(cells =~= word_parts(expanded(runs)));
    }
}

/// The number of the runs and the length of each can be written in 32 bits.
pub open spec fn runs_fit(runs: Seq<(u64, nat)>) -> bool {
    &&& runs.len() <= 0xFFFF_FFFF
    &&& forall|i: int| 0 <= i < runs.len() ==> (#[trigger] runs[i]).1 <= 0xFFFF_FFFF
}

/// The runs of a column whose length can be written in 32 bits fit.
proof fn lemma_short_runs_fit(words: Seq<u64>, float: bool)
    requires
        words.len() <= 0xFFFF_FFFF,
    ensures
        runs_fit(word_runs(words, float)),
{
    runs_expand(words, float);
}

proof fn lemma_rle_payload(vtype: u8, words: Seq<u64>, float: bool)
    requires
        vtype == VT_INT64 || vtype == VT_FLOAT64,
        runs_fit(word_runs(words, float)),
    ensures
        rle_view(rle_payload(vtype, words, float), vtype, words.len()) == cells_column(
            vtype,
            word_parts(expanded(word_runs(words, float))),
        ),
{
    let runs = word_runs(words, float);
    let payload = rle_payload(vtype, words, float);
    let tail = concat(run_parts(runs));
    runs_expand(words, float);
    lemma_le_bytes_len(runs.len(), 4);
    lemma_pow2_8();
    assert(payload.subrange(1, 5) =~= le_bytes(runs.len(), 4));
    assert(payload.subrange(5, (5 + tail.len()) as int) =~= tail);
    lemma_number_at(payload, 1, runs.len(), 4);
    assert forall|i: int| 0 <= i < runs.len() implies 1 <= (#[trigger] runs[i]).1 <= 0xFFFF_FFFF by {}
    lemma_rle_cells(payload, 5, runs, vtype);
}

/// Signed numbers survive the RLE encoding, where their runs can be counted in 32
/// bits.
pub proof fn rle_ints_round_trip(values: Seq<i64>)
    requires
        runs_fit(word_runs(to_words(values), false)),
    ensures
        rle_view(rle_payload(VT_INT64, to_words(values), false), VT_INT64, values.len())
            == ints_column(VT_INT64, values),
{
    let words = to_words(values);
    lemma_rle_payload(VT_INT64, words, false);
    runs_expand(words, false);
    assert(expanded(word_runs(words, false)) =~= words);
    lemma_cells_of_words(values);
}

proof fn lemma_cells_of_words(values: Seq<i64>)
    ensures
        cells_column(VT_INT64, word_parts(to_words(values))) == ints_column(VT_INT64, values),
{
    let words = to_words(values);
    let cells = word_parts(words);
    lemma_pow2_8();
    assert forall|i: int| 0 <= i < values.len() implies #[trigger] as_signed(le_value(cells[i]))
        == values[i] by {
        lemma_le_value_of_bytes(words[i] as nat, 8);
        lemma_signed_round_trip(values[i]);
    }
    assert(cells_column(VT_INT64, cells).ints =~= values);
}

/// Floats survive the RLE encoding up to float equality: each comes back bit
/// for bit, or as an equal number. Their runs have to be counted in 32 bits.
pub proof fn rle_floats_round_trip(values: Seq<u64>)
    requires
        runs_fit(word_runs(values, true)),
    ensures
        ({
            let back = rle_view(rle_payload(VT_FLOAT64, values, true), VT_FLOAT64, values.len());
            &&& back.n == values.len()
            &&& back.floats.len() == values.len()
            &&& forall|i: int|
                0 <= i < values.len() ==> #[trigger] back.floats[i] == values[i]
                    || crate::float::f64_same(values[i], back.floats[i])
        }),
{
    lemma_rle_payload(VT_FLOAT64, values, true);
    runs_expand(values, true);
    let e = expanded(word_runs(values, true));
    let cells = word_parts(e);
    let back = rle_view(rle_payload(VT_FLOAT64, values, true), VT_FLOAT64, values.len());
    lemma_pow2_8();
    assert forall|i: int| 0 <= i < values.len() implies #[trigger] back.floats[i] == values[i]
        || crate::float::f64_same(values[i], back.floats[i]) by {
        lemma_le_value_of_bytes(e[i] as nat, 8);
        assert(back.floats[i] == le_value(cells[i]) as u64);
        assert(back.floats[i] == e[i]);
    }
}

/// Packed fields read back, all of them and no more.
proof fn lemma_packed_fields(fields: Seq<u64>, w: nat, bytes: Seq<u8>)
    requires
        1 <= w,
        fields_fit(fields, w),
        bytes == le_bytes(packed(fields, w), packed_len(fields.len(), w)),
    ensures
        fields_held(bytes.len() as int, w as int, fields.len()) == fields.len(),
        forall|i: int|
            0 <= i < fields.len() ==> field(le_value(bytes), w, i as nat) == #[trigger] fields[i],
{
    let n = fields.len();
    let len = packed_len(n, w);
    lemma_packed_bound(fields, w);
    lemma_pow2_monotone(n * w, 8 * len);
    lemma_le_value_of_bytes(packed(fields, w), len);
    assert((len * 8) as int / w as int >= n) by (nonlinear_arith)
        requires len * 8 >= n * w, w >= 1,
    ;
    assert forall|i: int| 0 <= i < fields.len() implies field(le_value(bytes), w, i as nat)
        == #[trigger] fields[i] by {
        lemma_field_of_packed(fields, w, i as nat);
    }
}

/// Signed numbers survive the BITPACK encoding, whatever their range.
pub proof fn bitpack_round_trip(values: Seq<i64>)
    ensures
        bitpack_view(bitpack_payload(values), values.len()) == ints_column(VT_INT64, values),
{
    let payload = bitpack_payload(values);
    lemma_pow2_8();
    if values.len() == 0 {
        lemma_le_bytes_len(0, 8);
        assert(payload[0] == 0);
        assert(ints_column(VT_INT64, values).ints =~= Seq::<i64>::empty());
    } else {
        let w = range_width(values);
        let lo = least(values);
        let hi = greatest(values);
        let fields = offsets(values);
        lemma_extremes(values);
        assert(lo <= values[0] <= hi);
        lemma_bit_width((hi - lo) as nat);
        lemma_le_bytes_len(as_unsigned(lo), 8);
        lemma_le_bytes_len(as_unsigned(hi), 8);
        let bytes = le_bytes(packed(fields, w), packed_len(values.len(), w));
        assert(payload.skip(25) =~= bytes);
        assert(payload.subrange(1, 9) =~= le_bytes(as_unsigned(lo), 8));
        lemma_signed_round_trip(lo);
        lemma_number_at(payload, 1, as_unsigned(lo), 8);
        assert(fields_fit(fields, w)) by {
            assert forall|i: int| 0 <= i < fields.len() implies (#[trigger] fields[i] as nat) < pow2(
                w,
            ) by {
                assert(lo <= values[i] <= hi);
            }
        }
        lemma_packed_fields(fields, w, bytes);
        let back = bitpack_view(payload, values.len()).ints;
        lemma_le_bytes_len(packed(fields, w), packed_len(values.len(), w));
        assert(payload.len() - 25 == bytes.len());
        assert forall|i: int| 0 <= i < values.len() implies back[i] == #[trigger] values[i] by {
            assert(fields[i] == field(le_value(bytes), w, i as nat));
            assert(lo <= values[i] <= hi);
        }
        assert(back =~= values);
    }
}

/// Signed numbers survive the DICT encoding, where the number of distinct ones can
/// be written in 32 bits: asking for some of the rows gives the first of them.
pub proof fn dict_round_trip(values: Seq<i64>, n_rows: nat)
    requires
        distinct(values).len() <= 0xFFFF_FFFF,
        n_rows <= values.len(),
    ensures
        dict_view(dict_payload(values), VT_INT64, n_rows) == ints_column(
            VT_INT64,
            values.take(n_rows as int),
        ),
{
    let first = values.take(n_rows as int);
    let payload = dict_payload(values);
    let d = distinct(values);
    let words = to_words(d);
    lemma_pow2_8();
    lemma_distinct(values);
    if values.len() == 0 {
        lemma_le_bytes_len(0, 4);
        assert(payload.subrange(0, 4) =~= le_bytes(0, 4));
        lemma_number_at(payload, 0, 0, 4);
        assert(payload[4] == VT_INT64);
        assert(payload[5] == 0);
        assert(ints_column(VT_INT64, first).ints =~= Seq::<i64>::empty());
    } else {
        assert(values.contains(values[0]));
        assert(d.contains(values[0]));
        let w = code_width(values);
        let codes = dict_codes(values);
        let table = concat(word_parts(words));
        let bytes = le_bytes(packed(codes, w), packed_len(values.len(), w));
        lemma_le_bytes_len(d.len(), 4);
        lemma_le_bytes_len(packed(codes, w), packed_len(values.len(), w));
        lemma_word_parts_len(words);
        lemma_bit_width((d.len() - 1) as nat);
        let off = 5 + 8 * d.len();
        assert(payload.subrange(0, 4) =~= le_bytes(d.len(), 4));
        lemma_number_at(payload, 0, d.len(), 4);
        assert(payload[4] == VT_INT64);
        assert(payload.subrange(5, (5 + table.len()) as int) =~= table);
        assert(payload[off as int] == w as u8);
        assert(payload.skip((off + 1) as int) =~= bytes);
        let dict = dict_entries(payload, VT_INT64, d.len());
        assert forall|k: int| 0 <= k < d.len() implies #[trigger] dict.0[k] == word_parts(words)[k] by {
            lemma_words_at(payload, 5, words, k);
        }
        assert(dict.0 =~= word_parts(words));
        assert forall|i: int| 0 <= i < values.len() implies (#[trigger] codes[i]) < d.len()
            && d[codes[i] as int] == values[i] by {
            assert(values.contains(values[i]));
            assert(d.contains(values[i]));
        }
        assert(fields_fit(codes, w));
        lemma_packed_fields(codes, w, bytes);
        let cells = Seq::new(
            n_rows,
            |i: int| dict_cell(dict.0, field(le_value(bytes), w, i as nat)),
        );
        assert(cells =~= word_parts(to_words(first))) by {
            assert forall|i: int| 0 <= i < n_rows implies #[trigger] cells[i] == word_parts(
                to_words(first),
            )[i] by {
                assert(codes[i] == field(le_value(bytes), w, i as nat));
            }
        }
        lemma_cells_of_words(first);
    }
}

/// Signed numbers survive whichever encoding is picked for them. Where it is RLE,
/// their runs have to be counted in 32 bits.
pub proof fn auto_round_trip(values: Seq<i64>)
    requires
        auto_encoding(values) == ENC_RLE ==> runs_fit(word_runs(to_words(values), false)),
    ensures
        column_view(
            ints_payload(values, auto_encoding(values)),
            VT_INT64,
            auto_encoding(values),
            values.len(),
        ) == ints_column(VT_INT64, values),
{
    raw_ints_round_trip(values);
    bitpack_round_trip(values);
    if auto_encoding(values) == ENC_RLE {
        rle_ints_round_trip(values);
    }
    if auto_encoding(values) == ENC_DICT {
        dict_round_trip(values, values.len());
        assert(values.take(values.len() as int) =~= values);
    }
}

/// A column of the given name.
pub open spec fn named(name: Seq<u8>, col: ColumnView) -> ColumnView {
    ColumnView { name, ..col }
}

/// The column that a part stands for.
pub open spec fn part_column(p: Part, n_rows: nat) -> ColumnView {
    named_column(schema_view(p), p.payload, n_rows)
}

/// A RAW column of signed numbers can be carried, and reads back.
pub proof fn ints_part_round_trip(name: Seq<u8>, values: Seq<i64>)
    requires
        name.len() <= 255,
        8 * values.len() + 1 <= 0xFFFF_FFFF,
    ensures
        part_ok(raw_ints_part(name, values)),
        part_column(raw_ints_part(name, values), values.len()) == named(
            name,
            ints_column(VT_INT64, values),
        ),
{
    raw_ints_round_trip(values);
    lemma_word_parts_len(to_words(values));
    lemma_le_bytes_len(as_unsigned(least(values)), 8);
    lemma_le_bytes_len(as_unsigned(greatest(values)), 8);
}

/// A RAW column of floats can be carried, and reads back bit for bit.
pub proof fn floats_part_round_trip(name: Seq<u8>, values: Seq<u64>)
    requires
        name.len() <= 255,
        8 * values.len() + 1 <= 0xFFFF_FFFF,
    ensures
        part_ok(raw_floats_part(name, values)),
        part_column(raw_floats_part(name, values), values.len()) == named(
            name,
            floats_column(VT_FLOAT64, values),
        ),
{
    raw_floats_round_trip(values);
    lemma_word_parts_len(values);
    lemma_le_bytes_len(f64_least(values) as nat, 8);
    lemma_le_bytes_len(f64_greatest(values) as nat, 8);
}

/// A RAW column of texts can be carried, and reads back.
pub proof fn strs_part_round_trip(name: Seq<u8>, strs: Seq<Seq<u8>>)
    requires
        name.len() <= 255,
        raw_strings_payload(VT_STRING, strs).len() <= 0xFFFF_FFFF,
    ensures
        part_ok(raw_strs_part(name, strs)),
        part_column(raw_strs_part(name, strs), strs.len()) == named(
            name,
            strs_column(VT_STRING, strs),
        ),
{
    lemma_string_parts_bound(strs);
    raw_strings_round_trip(VT_STRING, strs);
}

/// A string is shorter than the list that holds it with its length.
proof fn lemma_string_parts_bound(strs: Seq<Seq<u8>>)
    ensures
        forall|i: int|
            0 <= i < strs.len() ==> (#[trigger] strs[i]).len() + 4 <= concat(
                string_parts(strs),
            ).len(),
    decreases strs.len(),
{
    if strs.len() > 0 {
        let rest = strs.drop_first();
        lemma_string_parts_bound(rest);
        assert(string_parts(strs).drop_first() =~= string_parts(rest));
        lemma_le_bytes_len(strs[0].len(), 4);
        assert forall|i: int| 0 <= i < strs.len() implies (#[trigger] strs[i]).len() + 4 <= concat(
            string_parts(strs),
        ).len() by {
            if i > 0 {
                assert(rest[i - 1] == strs[i]);
            }
        }
    }
}

proof fn lemma_single(part: Part, n_rows: nat)
    requires
        n_rows <= 0xFFFF_FFFF,
        part_ok(part),
    ensures
        decoded(blob_bytes(n_rows, seq![part]), None) == Ok::<Seq<ColumnView>, DecodeErrorView>(
            seq![part_column(part, n_rows)],
        ),
{
    let parts = seq![part];
    blob_round_trip(n_rows, parts, None);
    let cols = part_columns(n_rows, parts);
    lemma_filter_all(cols, |c: ColumnView| wanted(None, c.name));
    assert(cols =~= seq![part_column(part, n_rows)]);
}

/// Decoding what `pnd2_encode_i64` made gives one column `v` of the values.
pub proof fn i64_blob_round_trip(values: Seq<i64>)
    requires
        8 * values.len() + 1 <= 0xFFFF_FFFF,
    ensures
        decoded(blob_bytes(values.len(), seq![raw_ints_part(single_name(), values)]), None) == Ok::<
            Seq<ColumnView>,
            DecodeErrorView,
        >(seq![named(single_name(), ints_column(VT_INT64, values))]),
{
    ints_part_round_trip(single_name(), values);
    lemma_single(raw_ints_part(single_name(), values), values.len());
}

/// Decoding what `pnd2_encode_f64` made gives one column `v` of the values,
/// bit for bit.
pub proof fn f64_blob_round_trip(values: Seq<u64>)
    requires
        8 * values.len() + 1 <= 0xFFFF_FFFF,
    ensures
        decoded(blob_bytes(values.len(), seq![raw_floats_part(single_name(), values)]), None) == Ok::<
            Seq<ColumnView>,
            DecodeErrorView,
        >(seq![named(single_name(), floats_column(VT_FLOAT64, values))]),
{
    floats_part_round_trip(single_name(), values);
    lemma_single(raw_floats_part(single_name(), values), values.len());
}

/// Decoding what `pnd2_encode_str` made gives one column `v` of the texts.
pub proof fn str_blob_round_trip(strs: Seq<Seq<u8>>)
    requires
        raw_strings_payload(VT_STRING, strs).len() <= 0xFFFF_FFFF,
        strs.len() <= 0xFFFF_FFFF,
    ensures
        decoded(blob_bytes(strs.len(), seq![raw_strs_part(single_name(), strs)]), None) == Ok::<
            Seq<ColumnView>,
            DecodeErrorView,
        >(seq![named(single_name(), strs_column(VT_STRING, strs))]),
{
    strs_part_round_trip(single_name(), strs);
    lemma_single(raw_strs_part(single_name(), strs), strs.len());
}

/// Decoding what `pnd2_encode_i64_auto` made gives the columns back, under
/// their names and in their order.
pub proof fn auto_blob_round_trip(columns: Seq<(&str, &[i64])>)
    requires
        columns.len() <= 0xFFFF,
        forall|i: int|
            0 <= i < columns.len() ==> (#[trigger] columns[i]).0.spec_bytes().len() <= 255
                && columns[i].1@.len() == columns[0].1@.len() && auto_part(
                columns[i].0.spec_bytes(),
                columns[i].1@,
            ).payload.len() <= 0xFFFF_FFFF,
        auto_rows(columns) <= 0xFFFF_FFFF,
    ensures
        decoded(blob_bytes(auto_rows(columns), auto_parts(columns)), None) == Ok::<
            Seq<ColumnView>,
            DecodeErrorView,
        >(
            Seq::new(
                columns.len(),
                |i: int|
                    named(columns[i].0.spec_bytes(), ints_column(VT_INT64, columns[i].1@)),
            ),
        ),
{
    let parts = auto_parts(columns);
    let n = auto_rows(columns);
    let cols = part_columns(n, parts);
    let want = Seq::new(
        columns.len(),
        |i: int| named(columns[i].0.spec_bytes(), ints_column(VT_INT64, columns[i].1@)),
    );
    assert forall|i: int| 0 <= i < parts.len() implies part_ok(#[trigger] parts[i]) && cols[i]
        == want[i] by {
        let c = columns[i];
        lemma_short_runs_fit(to_words(c.1@), false);
        auto_round_trip(c.1@);
        lemma_le_bytes_len(as_unsigned(least(c.1@)), 8);
        lemma_le_bytes_len(as_unsigned(greatest(c.1@)), 8);
    }
    blob_round_trip(n, parts, None);
    lemma_filter_all(cols, |c: ColumnView| wanted(None, c.name));
    assert(cols =~= want);
}

/// Whether a typed column comes back from a blob. Dates, timestamps and
/// booleans come back under the DICT and BITPACK encodings; vectors do not.
pub open spec fn typed_readable(col: TypedColumn) -> bool {
    match col {
        TypedColumn::Int64(_) => true,
        TypedColumn::Float64(_) => true,
        TypedColumn::String(v) => lengths_ok(text_bytes(v@)),
        TypedColumn::Variant(v) => lengths_ok(text_bytes(v@)),
        TypedColumn::Binary(v) => lengths_ok(byte_views(v@)),
        TypedColumn::Vector(_) => false,
        _ => col.encoding_spec() == ENC_DICT || col.encoding_spec() == ENC_BITPACK,
    }
}

/// What a typed column holds, as a decoded column does.
pub open spec fn typed_view(col: TypedColumn) -> ColumnView {
    match col {
        TypedColumn::Float64(v) => floats_column(VT_FLOAT64, v@),
        TypedColumn::String(v) => strs_column(VT_STRING, text_bytes(v@)),
        TypedColumn::Variant(v) => strs_column(VT_VARIANT, text_bytes(v@)),
        TypedColumn::Binary(v) => bins_column(VT_BINARY, byte_views(v@)),
        _ => ints_column(col.vtype_spec(), col.ints()),
    }
}

/// A typed column comes back from its payload.
pub proof fn typed_part_round_trip(name: Seq<u8>, col: TypedColumn)
    requires
        typed_readable(col),
        name.len() <= 255,
        col.len_spec() <= 0xFFFF_FFFF,
        col.payload_spec().len() <= 0xFFFF_FFFF,
    ensures
        part_ok(typed_part(name, col)),
        part_column(typed_part(name, col), col.len_spec()) == named(name, typed_view(col)),
{
    let p = typed_part(name, col);
    lemma_le_bytes_len(as_unsigned(least(col.ints())), 8);
    lemma_le_bytes_len(as_unsigned(greatest(col.ints())), 8);
    lemma_le_bytes_len(0, 8);
    lemma_le_bytes_len(1, 8);
    match col {
        TypedColumn::Float64(v) => {
            lemma_le_bytes_len(f64_least(v@) as nat, 8);
            lemma_le_bytes_len(f64_greatest(v@) as nat, 8);
            raw_floats_round_trip(v@);
        },
        TypedColumn::String(v) => {
            raw_strings_round_trip(VT_STRING, text_bytes(v@));
        },
        TypedColumn::Variant(v) => {
            raw_strings_round_trip(VT_VARIANT, text_bytes(v@));
        },
        TypedColumn::Binary(v) => {
            let strs = byte_views(v@);
            let data = concat(string_parts(strs));
            let payload = col.payload_spec();
            lemma_le_bytes_len(v@.len(), 4);
            lemma_pow2_8();
            assert(payload.subrange(0, 4) =~= le_bytes(v@.len(), 4));
            assert(payload.subrange(4, (4 + data.len()) as int) =~= data);
            lemma_number_at(payload, 0, v@.len(), 4);
            lemma_strings(payload, 4, strs, true);
        },
        TypedColumn::Int64(v) => {
            lemma_short_runs_fit(to_words(v@), false);
            auto_round_trip(v@);
        },
        _ => {
            let ints = col.ints();
            bitpack_round_trip(ints);
            lemma_distinct(ints);
            dict_round_trip(ints, ints.len());
            assert(ints.take(ints.len() as int) =~= ints);
        },
    }
}

/// Decoding what `pnd2_encode_multi_typed` made gives the columns back, under
/// their names and in their order.
pub proof fn typed_blob_round_trip(columns: Seq<(&str, TypedColumn)>)
    requires
        columns.len() <= 0xFFFF,
        forall|i: int|
            0 <= i < columns.len() ==> typed_readable((#[trigger] columns[i]).1)
                && columns[i].0.spec_bytes().len() <= 255 && columns[i].1.len_spec()
                == columns[0].1.len_spec() && columns[i].1.payload_spec().len() <= 0xFFFF_FFFF,
        typed_rows(columns) <= 0xFFFF_FFFF,
    ensures
        decoded(blob_bytes(typed_rows(columns), typed_parts(columns)), None) == Ok::<
            Seq<ColumnView>,
            DecodeErrorView,
        >(
            Seq::new(
                columns.len(),
                |i: int| named(columns[i].0.spec_bytes(), typed_view(columns[i].1)),
            ),
        ),
{
    let parts = typed_parts(columns);
    let n = typed_rows(columns);
    let cols = part_columns(n, parts);
    let want = Seq::new(
        columns.len(),
        |i: int| named(columns[i].0.spec_bytes(), typed_view(columns[i].1)),
    );
    assert forall|i: int| 0 <= i < parts.len() implies part_ok(#[trigger] parts[i]) && cols[i]
        == want[i] by {
        let c = columns[i];
        typed_part_round_trip(c.0.spec_bytes(), c.1);
    }
    blob_round_trip(n, parts, None);
    lemma_filter_all(cols, |c: ColumnView| wanted(None, c.name));
    assert(cols =~= want);
}

} // verus!
