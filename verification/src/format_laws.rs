//! What the bytes of a blob say: header, statistics, encodings, numbers.

use vstd::arithmetic::div_mod::{lemma_fundamental_div_mod, lemma_fundamental_div_mod_converse};
use vstd::arithmetic::mul::{lemma_mul_inequality, lemma_mul_strict_inequality};
use vstd::arithmetic::power2::{lemma2_to64, lemma2_to64_rest, lemma_pow2_adds, lemma_pow2_pos, lemma_pow2_unfold, pow2};
use vstd::prelude::*;
use crate::assemble::{blob_bytes, int_stats, payload_part, schema_part, stats_part, Part};
use crate::bytes::{as_signed, as_unsigned, lemma_signed_round_trip};
use crate::constants::{ENC_BITPACK, ENC_DICT, ENC_RAW, ENC_RLE};
use crate::encode::{auto_encoding, bit_width, bitpack_payload, changes, dict_payload, lemma_bit_width,
    lemma_bit_width_bound, raw_words_payload, rle_payload, same_word, word_runs};
use crate::float::{f64_of_int, f64_of_nat, lemma_bit_width_low, round_half_even};
use crate::infer::{scan_column, scanned_column, snapshot_columns};
use crate::json::{i64_of, member, Json};
use crate::numeral::{field, le_bytes, le_value, lemma_le_bytes_len, lemma_le_value_of_bytes, packed};
use crate::rows::{hex_char, hex_digits};
use crate::seqs::{distinct, greatest, least, lemma_distinct, lemma_extremes};
use crate::tally::how_many;
use crate::typed::{bool_stats, TypedColumn, TypedView};

verus! {

/// Numbers are stored with the low byte first.
pub proof fn numbers_start_with_the_low_byte(a: u8, b: u8, c: u8, d: u8, v: nat, n: nat)
    ensures
        le_value(seq![a, b, c, d]) == a + 256 * b + 65536 * c + 16777216 * d,
        le_value(seq![a, b]) == a + 256 * b,
        le_bytes(v, n).len() == n,
        n > 0 ==> le_bytes(v, n)[0] == v % 256 && le_bytes(v, n).skip(1) == le_bytes(v / 256, (n - 1) as nat),
{
    lemma_le_bytes_len(v, n);
    let e = Seq::<u8>::empty();
    assert(le_value(e) == 0);
    assert(seq![d].drop_first() =~= e);
    assert(le_value(seq![d]) == d);
    assert(seq![c, d].drop_first() =~= seq![d]);
    assert(le_value(seq![c, d]) == c + 256 * d);
    assert(seq![b, c, d].drop_first() =~= seq![c, d]);
    assert(le_value(seq![b, c, d]) == b + 256 * (c + 256 * d));
    assert(seq![a, b, c, d].drop_first() =~= seq![b, c, d]);
    assert(seq![b].drop_first() =~= e);
    assert(le_value(seq![b]) == b);
    assert(seq![a, b].drop_first() =~= seq![b]);
    if n > 0 {
        assert(le_bytes(v, n).skip(1) =~= le_bytes(v / 256, (n - 1) as nat));
    }
}

/// A signed number is stored as its two's complement.
pub proof fn signed_numbers_are_stored_as_complements(v: i64)
    ensures
        v >= 0 ==> as_unsigned(v) == v,
        v < 0 ==> as_unsigned(v) == v + 0x1_0000_0000_0000_0000,
        as_signed(as_unsigned(v)) == v,
{
    lemma_signed_round_trip(v);
}

/// A blob starts with `PND2`, the version, the flag for statistics, the number of rows,
/// the number of columns and the mark for no compression.
pub proof fn blobs_start_with_their_header(n_rows: nat, parts: Seq<Part>)
    requires
        n_rows <= 0xFFFF_FFFF,
        parts.len() <= 0xFFFF,
    ensures
        ({
            let b = blob_bytes(n_rows, parts);
            &&& b.len() >= 13
            &&& b[0] == 'P' as u8 && b[1] == 'N' as u8 && b[2] == 'D' as u8 && b[3] == '2' as u8
            &&& b[4] == 2 && b[5] == 1 && b[12] == 0
            &&& le_value(b.subrange(6, 10)) == n_rows
            &&& le_value(b.subrange(10, 12)) == parts.len()
        }),
{
    let b = blob_bytes(n_rows, parts);
    lemma_le_bytes_len(n_rows, 4);
    lemma_le_bytes_len(parts.len(), 2);
    assert(b.subrange(6, 10) =~= le_bytes(n_rows, 4));
    assert(b.subrange(10, 12) =~= le_bytes(parts.len(), 2));
    lemma2_to64();
    lemma_le_value_of_bytes(n_rows, 4);
    lemma_le_value_of_bytes(parts.len(), 2);
    vstd::arithmetic::div_mod::lemma_small_mod(n_rows, 0x1_0000_0000);
    vstd::arithmetic::div_mod::lemma_small_mod(parts.len(), 0x1_0000);
}

/// A column stands in the schema with the length of its name, its name, its type and its
/// encoding; in the statistics with a mark, its bounds and its nulls; in the data with
/// its length and its bytes.
pub proof fn columns_have_three_entries(p: Part, min: Seq<u8>, max: Seq<u8>)
    requires
        p.name.len() <= 255,
    ensures
        schema_part(p).len() == p.name.len() + 3,
        schema_part(p)[0] == p.name.len(),
        schema_part(p).subrange(1, p.name.len() + 1int) == p.name,
        schema_part(p)[p.name.len() + 1int] == p.vtype,
        schema_part(p)[p.name.len() + 2int] == p.enc,
        p.stats == Some((min, max)) ==> stats_part(p) == seq![1u8] + min + max + le_bytes(p.null_count, 4),
        p.stats is None ==> stats_part(p) == seq![0u8] + le_bytes(p.null_count, 4),
        payload_part(p).take(4) == le_bytes(p.payload.len(), 4),
        payload_part(p).skip(4) == p.payload,
{
    lemma_le_bytes_len(p.name.len(), 1);
    lemma_le_bytes_len(p.payload.len(), 4);
    assert(le_bytes(p.name.len(), 1)[0] == p.name.len() % 256);
    assert(schema_part(p).subrange(1, p.name.len() + 1int) =~= p.name);
    assert(payload_part(p).take(4) =~= le_bytes(p.payload.len(), 4));
    assert(payload_part(p).skip(4) =~= p.payload);
}

proof fn lemma_attained(s: Seq<i64>)
    requires
        s.len() > 0,
    ensures
        s.contains(least(s)),
        s.contains(greatest(s)),
    decreases s.len(),
{
    if s.len() == 1 {
        assert(s[0] == least(s));
        assert(s[0] == greatest(s));
    } else {
        let t = s.drop_last();
        lemma_attained(t);
        let i = choose|i: int| 0 <= i < t.len() && t[i] == least(t);
        let j = choose|j: int| 0 <= j < t.len() && t[j] == greatest(t);
        assert(s[i] == least(t));
        assert(s[j] == greatest(t));
        assert(s[s.len() - 1] == s.last());
    }
}

proof fn lemma_bytes_signed(v: i64)
    ensures
        as_signed(le_value(le_bytes(as_unsigned(v), 8))) == v,
{
    lemma_signed_round_trip(v);
    lemma2_to64();
    lemma2_to64_rest();
    lemma_le_value_of_bytes(as_unsigned(v), 8);
    vstd::arithmetic::div_mod::lemma_small_mod(as_unsigned(v), 0x1_0000_0000_0000_0000);
}

/// The statistics of whole numbers are two of the numbers, and all others lie between
/// them.
pub proof fn statistics_are_the_bounds(values: Seq<i64>, i: int)
    requires
        0 <= i < values.len(),
    ensures
        match int_stats(values) {
            Some((min, max)) => {
                let lo = as_signed(le_value(min));
                let hi = as_signed(le_value(max));
                lo <= values[i] <= hi && values.contains(lo) && values.contains(hi)
            },
            None => false,
        },
{
    lemma_extremes(values);
    lemma_attained(values);
    lemma_bytes_signed(least(values));
    lemma_bytes_signed(greatest(values));
}

/// The statistics of booleans say whether any is true.
pub proof fn boolean_statistics_say_whether_any_is_true(v: Seq<bool>)
    ensures
        match bool_stats(v) {
            Some((min, max)) => le_value(min) == 0 && (le_value(max) == 1 <==> exists|i: int|
                0 <= i < v.len() && #[trigger] v[i]),
            None => false,
        },
{
    lemma2_to64();
    lemma2_to64_rest();
    lemma_le_value_of_bytes(0, 8);
    lemma_le_value_of_bytes(1, 8);
    vstd::arithmetic::div_mod::lemma_small_mod(0, 0x1_0000_0000_0000_0000);
    vstd::arithmetic::div_mod::lemma_small_mod(1, 0x1_0000_0000_0000_0000);
    if exists|i: int| 0 <= i < v.len() && #[trigger] v[i] {
        let i = choose|i: int| 0 <= i < v.len() && #[trigger] v[i];
        assert(v[i] == true);
        assert(v.contains(true));
    }
    if v.contains(true) {
        let i = choose|i: int| 0 <= i < v.len() && v[i] == true;
        assert(v[i]);
    }
}

/// A typed column has statistics just where it has rows and its values are numbers, and
/// a type of its own.
pub proof fn typed_columns_have_their_type(col: TypedColumn, other: TypedColumn)
    ensures
        col.vtype_spec() == other.vtype_spec() <==> match (col, other) {
            (TypedColumn::Int64(_), TypedColumn::Int64(_)) => true,
            (TypedColumn::Float64(_), TypedColumn::Float64(_)) => true,
            (TypedColumn::String(_), TypedColumn::String(_)) => true,
            (TypedColumn::Binary(_), TypedColumn::Binary(_)) => true,
            (TypedColumn::Variant(_), TypedColumn::Variant(_)) => true,
            (TypedColumn::Boolean(_), TypedColumn::Boolean(_)) => true,
            (TypedColumn::Date(_), TypedColumn::Date(_)) => true,
            (TypedColumn::Timestamp(_), TypedColumn::Timestamp(_)) => true,
            (TypedColumn::Vector(_), TypedColumn::Vector(_)) => true,
            _ => false,
        },
        col.stats_spec() is Some <==> col.len_spec() > 0 && (col is Int64 || col is Float64 || col is Boolean || col is Date
            || col is Timestamp),
        col matches TypedColumn::Int64(v) ==> (v@.len() > 0 ==> col.stats_spec() == int_stats(v@)),
        col matches TypedColumn::Date(v) ==> (v@.len() > 0 ==> col.stats_spec() == int_stats(v@)),
        col matches TypedColumn::Timestamp(v) ==> (v@.len() > 0 ==> col.stats_spec() == int_stats(v@)),
        col is Float64 || col is String || col is Binary || col is Variant || col is Vector ==> col.encoding_spec() == 0,
{
}

proof fn lemma_changes(s: Seq<i64>, n: nat)
    requires
        n < s.len(),
    ensures
        changes(s.take(n + 1int)) == how_many(n, |i: int| s[i] != s[i + 1]),
    decreases n,
{
    let p = |i: int| s[i] != s[i + 1];
    let t = s.take(n + 1int);
    if n > 0 {
        lemma_changes(s, (n - 1) as nat);
        assert(t.drop_last() =~= s.take(n as int));
        assert(t[t.len() - 1] == s[n as int] && t[t.len() - 2] == s[n - 1]);
        assert(how_many(n, p) == how_many((n - 1) as nat, p) + if p(n - 1) {
            1nat
        } else {
            0nat
        });
    } else {
        assert(how_many(0, p) == 0);
    }
}

/// The distinct values are the values, each once.
pub proof fn distinct_values_come_once(s: Seq<i64>, x: i64)
    ensures
        distinct(s).contains(x) <==> s.contains(x),
        distinct(s).no_duplicates(),
{
    lemma_distinct(s);
}

/// An encoding is chosen where it pays: a dictionary for few distinct values, runs where
/// fewer than half of the first thousand values start one, packed bits where the values
/// lie close together.
pub proof fn encodings_are_chosen_where_they_pay(values: Seq<i64>)
    requires
        values.len() > 0,
    ensures
        ({
            let n = if values.len() > 1000 {
                1000nat
            } else {
                values.len()
            };
            let few = distinct(values).len() < 1000 && 10 * distinct(values).len() < values.len();
            let runs = values.len() >= 10 && 1 + how_many((n - 1) as nat, |i: int| values[i] != values[i + 1]) < n / 2;
            let close = exists|i: int, j: int|
                0 <= i < values.len() && 0 <= j < values.len() && (#[trigger] values[i]) - (#[trigger] values[j]) >= 65536;
            &&& auto_encoding(values) == ENC_DICT <==> few
            &&& auto_encoding(values) == ENC_RLE <==> !few && runs
            &&& auto_encoding(values) == ENC_BITPACK <==> !few && !runs && !close
            &&& auto_encoding(values) == ENC_RAW <==> !few && !runs && close
        }),
        auto_encoding(Seq::<i64>::empty()) == ENC_RAW,
{
    let n = if values.len() > 1000 {
        1000nat
    } else {
        values.len()
    };
    lemma_changes(values, (n - 1) as nat);
    assert(values.take(values.len() as int) =~= values);
    lemma_extremes(values);
    lemma_attained(values);
    let i = choose|i: int| 0 <= i < values.len() && values[i] == greatest(values);
    let j = choose|j: int| 0 <= j < values.len() && values[j] == least(values);
    if greatest(values) - least(values) >= 65536 {
        assert(values[i] - values[j] >= 65536);
    }
    if exists|i: int, j: int|
        0 <= i < values.len() && 0 <= j < values.len() && (#[trigger] values[i]) - (#[trigger] values[j]) >= 65536 {
        let (a, b) = choose|i: int, j: int|
            0 <= i < values.len() && 0 <= j < values.len() && (#[trigger] values[i]) - (#[trigger] values[j]) >= 65536;
        assert(values[a] <= greatest(values));
        assert(least(values) <= values[b]);
    }
}

/// Runs that follow each other have different values.
pub proof fn runs_are_as_long_as_they_can_be(words: Seq<u64>, float: bool, i: int)
    requires
        0 <= i < word_runs(words, float).len() - 1,
    ensures
        !same_word(word_runs(words, float)[i + 1].0, word_runs(words, float)[i].0, float),
    decreases words.len(),
{
    let t = words.drop_last();
    let prev = word_runs(t, float);
    let all = word_runs(words, float);
    if i < prev.len() - 1 {
        runs_are_as_long_as_they_can_be(t, float, i);
    }
}

/// The bits of a number are just as many as it takes.
pub proof fn widths_are_least(v: nat)
    requires
        v >= 1,
    ensures
        pow2((bit_width(v) - 1) as nat) <= v < pow2(bit_width(v)),
{
    lemma_bit_width(v);
    lemma_bit_width_low(v);
}

/// A quotient is rounded to the nearest, and a tie to the even one.
pub proof fn quotients_are_rounded_to_the_nearest(m: nat, d: nat)
    requires
        d > 0,
    ensures
        2 * (round_half_even(m, d) * d - m) <= d,
        2 * (m - round_half_even(m, d) * d) <= d,
        2 * (round_half_even(m, d) * d - m) == d || 2 * (m - round_half_even(m, d) * d) == d ==> round_half_even(m, d) % 2
            == 0,
{
    let q = m / d;
    lemma_fundamental_div_mod(m as int, d as int);
    assert((q + 1) * d == q * d + d) by (nonlinear_arith);
    assert(d * q == q * d) by (nonlinear_arith);
}

/// A whole number below 2^53 has just that value as a float: its digits after the leading
/// one, and its exponent.
pub proof fn whole_numbers_are_exact_as_floats(m: nat)
    requires
        1 <= m < 0x20_0000_0000_0000,
    ensures
        ({
            let x = f64_of_int(m as int);
            let k = x / 0x10_0000_0000_0000 - 1023;
            &&& 0 <= k <= 52
            &&& pow2(k as nat) <= m < pow2((k + 1) as nat)
            &&& 0x10_0000_0000_0000 + x % 0x10_0000_0000_0000 == m * pow2((52 - k) as nat)
            &&& f64_of_int(-m) == x + 0x8000_0000_0000_0000
        }),
        f64_of_int(0) == 0,
{
    lemma2_to64();
    lemma2_to64_rest();
    lemma_bit_width(m);
    lemma_bit_width_low(m);
    lemma_bit_width_bound(m, 53);
    let e = (bit_width(m) - 1) as nat;
    let s = (52 - e) as nat;
    lemma_pow2_adds(e, s);
    lemma_pow2_unfold(e + 1);
    lemma_pow2_pos(s);
    let frac = m * pow2(s);
    lemma_mul_inequality(pow2(e) as int, m as int, pow2(s) as int);
    lemma_mul_strict_inequality(m as int, pow2(e + 1) as int, pow2(s) as int);
    assert(pow2(e + 1) * pow2(s) == 2 * (pow2(e) * pow2(s))) by (nonlinear_arith)
        requires
            pow2(e + 1) == 2 * pow2(e),
    ;
    assert(0x10_0000_0000_0000 <= frac < 0x20_0000_0000_0000);
    let n = f64_of_nat(m);
    assert(n == (e + 1022) * 0x10_0000_0000_0000 + frac);
    assert(n < 0x8000_0000_0000_0000);
    lemma_fundamental_div_mod_converse(n as int, 0x10_0000_0000_0000, e + 1023int, frac - 0x10_0000_0000_0000);
}

/// A number in hexadecimal has its low digit last, and the digits are in order.
pub proof fn hexadecimal_digits_are_in_order(v: nat, n: nat, a: nat)
    ensures
        hex_digits(v, n).len() == n,
        n > 0 ==> hex_digits(v, n).last() == hex_char(v % 16) && hex_digits(v, n).drop_last() == hex_digits(
            v / 16,
            (n - 1) as nat,
        ),
        a < 10 ==> hex_char(a) as u32 == '0' as u32 + a,
        10 <= a < 16 ==> hex_char(a) as u32 == 'a' as u32 + (a - 10),
    decreases n,
{
    if n > 0 {
        hexadecimal_digits_are_in_order(v / 16, (n - 1) as nat, a);
        assert(hex_digits(v, n).drop_last() =~= hex_digits(v / 16, (n - 1) as nat));
    }
}

proof fn lemma_scan_ints(rows: Seq<Json>, name: Seq<char>)
    requires
        rows.len() > 0,
        forall|i: int|
            0 <= i < rows.len() ==> (member(#[trigger] rows[i], name) matches Some(v) && v is Number && i64_of(v) is Some),
    ensures
        scan_column(rows, name).kind == 1,
        scan_column(rows, name).ints.len() == rows.len(),
        forall|i: int|
            0 <= i < rows.len() ==> Some(#[trigger] scan_column(rows, name).ints[i]) == i64_of(member(rows[i], name)->0),
    decreases rows.len(),
{
    let t = rows.drop_last();
    let s = scan_column(rows, name);
    assert(member(rows[rows.len() - 1], name) is Some);
    if t.len() > 0 {
        assert forall|i: int| 0 <= i < t.len() implies (member(#[trigger] t[i], name) matches Some(v) && v is Number
            && i64_of(v) is Some) by {
            assert(t[i] == rows[i]);
        }
        lemma_scan_ints(t, name);
        assert forall|i: int| 0 <= i < rows.len() implies Some(#[trigger] s.ints[i]) == i64_of(member(rows[i], name)->0) by {
            if i < t.len() {
                assert(s.ints[i] == scan_column(t, name).ints[i]);
                assert(t[i] == rows[i]);
            }
        }
    } else {
        assert(scan_column(t, name).kind == 0 && scan_column(t, name).ints.len() == 0);
    }
}

proof fn lemma_scan_texts(rows: Seq<Json>, name: Seq<char>)
    requires
        rows.len() > 0,
        forall|i: int| 0 <= i < rows.len() ==> (member(#[trigger] rows[i], name) matches Some(v) && v is String),
    ensures
        scan_column(rows, name).kind == 3,
        scan_column(rows, name).texts.len() == rows.len(),
        forall|i: int|
            0 <= i < rows.len() ==> Some(Json::String(#[trigger] scan_column(rows, name).texts[i])) == member(rows[i], name),
    decreases rows.len(),
{
    let t = rows.drop_last();
    let s = scan_column(rows, name);
    assert(member(rows[rows.len() - 1], name) is Some);
    if t.len() > 0 {
        assert forall|i: int| 0 <= i < t.len() implies (member(#[trigger] t[i], name) matches Some(v) && v is String) by {
            assert(t[i] == rows[i]);
        }
        lemma_scan_texts(t, name);
        assert forall|i: int| 0 <= i < rows.len() implies Some(Json::String(#[trigger] s.texts[i])) == member(rows[i], name) by {
            if i < t.len() {
                assert(s.texts[i] == scan_column(t, name).texts[i]);
                assert(t[i] == rows[i]);
            }
        }
    } else {
        assert(scan_column(t, name).kind == 0 && scan_column(t, name).texts.len() == 0);
    }
}

/// A snapshot has the columns of its first row, in its order: whole numbers where all
/// values are such, texts where all are texts.
pub proof fn snapshots_have_the_columns_of_the_first_row(rows: Seq<Json>, fields: Seq<(Seq<char>, Json)>, c: int, i: int)
    requires
        rows.len() > 0,
        rows[0] == Json::Object(fields),
        0 <= c < fields.len(),
        0 <= i < rows.len(),
    ensures
        snapshot_columns(rows) is None <==> exists|j: int| 0 <= j < rows.len() && !((#[trigger] rows[j]) is Object),
        snapshot_columns(rows) matches Some(cols) ==> {
            let name = fields[c].0;
            &&& cols.len() == fields.len()
            &&& cols[c].0 == name
            &&& (forall|j: int|
                0 <= j < rows.len() ==> (member(#[trigger] rows[j], name) matches Some(v) && v is Number && i64_of(v) is Some))
                ==> (cols[c].1 matches TypedView::Int64(v) && v.len() == rows.len() && Some(v[i]) == i64_of(
                member(rows[i], name)->0,
            ))
            &&& (forall|j: int| 0 <= j < rows.len() ==> (member(#[trigger] rows[j], name) matches Some(v) && v is String))
                ==> (cols[c].1 matches TypedView::String(v) && v.len() == rows.len() && Some(Json::String(v[i])) == member(
                rows[i],
                name,
            ))
        },
{
    let name = fields[c].0;
    if forall|j: int|
        0 <= j < rows.len() ==> (member(#[trigger] rows[j], name) matches Some(v) && v is Number && i64_of(v) is Some) {
        lemma_scan_ints(rows, name);
    }
    if forall|j: int| 0 <= j < rows.len() ==> (member(#[trigger] rows[j], name) matches Some(v) && v is String) {
        lemma_scan_texts(rows, name);
    }
}

/// Packed fields start at the low end.
pub proof fn packed_fields_start_at_the_low_end(fields: Seq<u64>, x: u64, v: nat, width: nat)
    ensures
        packed(Seq::empty(), width) == 0,
        packed(seq![x] + fields, width) == x + pow2(width) * packed(fields, width),
        field(v, width, 0) == v % pow2(width),
        field(v, width, 1) == (v / pow2(width)) % pow2(width),
{
    lemma2_to64();
    assert((seq![x] + fields).drop_first() =~= fields);
    assert((seq![x] + fields)[0] == x);
    assert(0 * width == 0) by (nonlinear_arith);
    assert(1 * width == width) by (nonlinear_arith);
    assert(v / 1 == v);
}

/// What stands at the start of encoded numbers: for raw values and runs the type, for
/// runs then their number; for a dictionary the number of its entries and the type; for
/// packed bits the width, and the least, the least again and the greatest value.
pub proof fn encoded_numbers_start_with_their_heads(values: Seq<i64>, words: Seq<u64>, vtype: u8, float: bool)
    requires
        values.len() > 0,
    ensures
        raw_words_payload(vtype, words)[0] == vtype,
        rle_payload(vtype, words, float)[0] == vtype,
        rle_payload(vtype, words, float).subrange(1, 5) == le_bytes(word_runs(words, float).len(), 4),
        dict_payload(values).take(4) == le_bytes(distinct(values).len(), 4),
        dict_payload(values)[4] == 1,
        ({
            let p = bitpack_payload(values);
            &&& p[0] == bit_width((greatest(values) - least(values)) as nat) as u8
            &&& p.subrange(1, 9) == le_bytes(as_unsigned(least(values)), 8)
            &&& p.subrange(9, 17) == le_bytes(as_unsigned(least(values)), 8)
            &&& p.subrange(17, 25) == le_bytes(as_unsigned(greatest(values)), 8)
        }),
{
    lemma_le_bytes_len(word_runs(words, float).len(), 4);
    lemma_le_bytes_len(distinct(values).len(), 4);
    lemma_le_bytes_len(as_unsigned(least(values)), 8);
    lemma_le_bytes_len(as_unsigned(greatest(values)), 8);
    assert(rle_payload(vtype, words, float).subrange(1, 5) =~= le_bytes(word_runs(words, float).len(), 4));
    let d = dict_payload(values);
    assert(d.take(4) =~= le_bytes(distinct(values).len(), 4));
    let p = bitpack_payload(values);
    assert(p.subrange(1, 9) =~= le_bytes(as_unsigned(least(values)), 8));
    assert(p.subrange(9, 17) =~= le_bytes(as_unsigned(least(values)), 8));
    assert(p.subrange(17, 25) =~= le_bytes(as_unsigned(greatest(values)), 8));
}

/// A row without a value takes a zero in a column of numbers, and an empty text in one of
/// texts.
pub proof fn missing_values_take_the_default(rows: Seq<Json>, row: Json, name: Seq<char>)
    requires
        member(row, name) is None || member(row, name) == Some(Json::Null),
    ensures
        ({
            let before = scan_column(rows, name);
            let after = scan_column(rows.push(row), name);
            &&& before.kind == 1 ==> after.kind == 1 && after.ints == before.ints.push(0)
            &&& before.kind == 2 ==> after.kind == 2 && after.floats == before.floats.push(0)
            &&& before.kind != 1 && before.kind != 2 ==> after.kind == 3 && after.texts == before.texts.push(Seq::empty())
        }),
{
    assert(rows.push(row).drop_last() =~= rows);
}

/// The first value of a column decides its type: whole numbers, other numbers, texts.
pub proof fn the_first_value_decides_the_type(row: Json, name: Seq<char>, v: Json)
    requires
        member(row, name) == Some(v),
    ensures
        v is Number && i64_of(v) is Some ==> scanned_column(scan_column(seq![row], name)) == TypedView::Int64(
            seq![i64_of(v)->0],
        ),
        v is Number && i64_of(v) is None ==> scanned_column(scan_column(seq![row], name)) is Float64,
        v is String ==> scanned_column(scan_column(seq![row], name)) == TypedView::String(seq![v->String_0]),
{
    let one = seq![row];
    assert(one.drop_last() =~= Seq::<Json>::empty());
    let none = scan_column(one.drop_last(), name);
    assert(none.kind == 0 && none.ints.len() == 0 && none.texts.len() == 0);
    let s = scan_column(one, name);
    if v is Number && i64_of(v) is Some {
        assert(s.ints =~= seq![i64_of(v)->0]);
    }
    if v is String {
        assert(s.texts =~= seq![v->String_0]);
    }
}

} // verus!
