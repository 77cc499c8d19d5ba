//! What the parts of a blob are read as: strings, marks, runs, dictionaries, headers.

use vstd::arithmetic::power2::lemma2_to64;
use vstd::prelude::*;
use crate::blob::{decoded, header_stats, projected, wanted, DecodeErrorView};
use crate::bytes::le_at;
use crate::constants::{VT_BINARY, VT_FLOAT64, VT_INT64, VT_NULL, VT_STRING, VT_VARIANT};
use crate::decode::{bit_set, cells_column, dict_cell, masked_row, raw_strings, raw_view, rle_run, strings,
    unmarked_before};
use crate::float::{f64_greatest, f64_least};
use crate::handle::{text_at, typed_at};
use crate::numeral::{le_bytes, le_value, lemma_le_bytes_len, lemma_le_value_of_bytes};
use crate::seqs::{greatest, least};
use crate::table::{are_stats, Bounds, ColumnStats, Values};
use crate::tally::how_many;
use crate::types::ColumnView;

verus! {

proof fn lemma_length_at(data: Seq<u8>, off: int, n: nat)
    requires
        0 <= off,
        off + 4 <= data.len(),
        n <= 0xFFFF_FFFF,
        data.subrange(off, off + 4) == le_bytes(n, 4),
    ensures
        le_at(data, off, 4) == n,
{
    lemma2_to64();
    lemma_le_value_of_bytes(n, 4);
    vstd::arithmetic::div_mod::lemma_small_mod(n, 0x1_0000_0000);
}

/// A string stands with its length before it; a length of all ones is a null, which has
/// no bytes; a string that is cut short is not read.
pub proof fn strings_stand_after_their_lengths(data: Seq<u8>, off: int, s: Seq<u8>, max: nat, nulls: bool)
    requires
        0 <= off,
        off + 4 <= data.len(),
        max > 0,
        s.len() < 0xFFFF_FFFF,
    ensures
        data.subrange(off, off + 4) == le_bytes(s.len(), 4) && off + 4 + s.len() <= data.len() && data.subrange(
            off + 4,
            off + 4 + s.len(),
        ) == s ==> strings(data, off, max, nulls).0 == seq![s] + strings(
            data,
            off + 4 + s.len(),
            (max - 1) as nat,
            nulls,
        ).0,
        data.subrange(off, off + 4) == le_bytes(0xFFFF_FFFF, 4) && nulls ==> strings(data, off, max, nulls).0 == seq![
            Seq::<u8>::empty(),
        ] + strings(data, off + 4, (max - 1) as nat, nulls).0,
        data.subrange(off, off + 4) == le_bytes(s.len(), 4) && off + 4 + s.len() > data.len() ==> strings(
            data,
            off,
            max,
            nulls,
        ).0.len() == 0,
{
    if data.subrange(off, off + 4) == le_bytes(s.len(), 4) {
        lemma_length_at(data, off, s.len());
    }
    if data.subrange(off, off + 4) == le_bytes(0xFFFF_FFFF, 4) {
        lemma_length_at(data, off, 0xFFFF_FFFF);
    }
}

/// The marks of eight rows stand in a byte, that of the first in its lowest bit.
pub proof fn marks_start_with_the_lowest_bit(bitmap: Seq<u8>, k: int)
    requires
        0 <= k < bitmap.len(),
    ensures
        bit_set(bitmap, 8 * k) <==> bitmap[k] % 2 == 1,
        bit_set(bitmap, 8 * k + 1) <==> (bitmap[k] / 2) % 2 == 1,
        bit_set(bitmap, 8 * k + 7) <==> bitmap[k] >= 128,
{
    lemma2_to64();
    assert((8 * k) / 8 == k && (8 * k) % 8 == 0);
    assert((8 * k + 1) / 8 == k && (8 * k + 1) % 8 == 1);
    assert((8 * k + 7) / 8 == k && (8 * k + 7) % 8 == 7);
    let v = bitmap[k] as nat;
    assert(v / 1 == v);
    assert(bit_set(bitmap, 8 * k) <==> (v / 1) % 2 == 1);
    assert(v < 256 ==> (v / 128 == 0 || v / 128 == 1));
    assert(bit_set(bitmap, 8 * k + 7) <==> (v / 128) % 2 == 1);
}

proof fn lemma_unmarked(bitmap: Seq<u8>, i: nat)
    ensures
        unmarked_before(bitmap, i) == how_many(i, |j: int| !bit_set(bitmap, j)),
    decreases i,
{
    let p = |j: int| !bit_set(bitmap, j);
    if i > 0 {
        lemma_unmarked(bitmap, (i - 1) as nat);
        assert(how_many(i, p) == how_many((i - 1) as nat, p) + if p(i - 1) {
            1nat
        } else {
            0nat
        });
    } else {
        assert(how_many(0, p) == 0);
    }
}

/// A row that is marked is null; the others have the strings in their order.
pub proof fn unmarked_rows_have_the_strings(bitmap: Seq<u8>, vals: Seq<Seq<u8>>, i: nat)
    ensures
        bit_set(bitmap, i as int) ==> masked_row(bitmap, vals, i).len() == 0,
        !bit_set(bitmap, i as int) && how_many(i, |j: int| !bit_set(bitmap, j)) < vals.len() ==> masked_row(bitmap, vals, i)
            == vals[how_many(i, |j: int| !bit_set(bitmap, j)) as int],
{
    lemma_unmarked(bitmap, i);
}

/// A run of numbers has its value and then its count; one of strings the length, the
/// string and then the count.
pub proof fn runs_have_a_value_and_a_count(data: Seq<u8>, off: int, s: Seq<u8>, count: nat, vtype: u8)
    requires
        0 <= off,
        s.len() <= 0xFFFF_FFFF,
        count <= 0xFFFF_FFFF,
    ensures
        (vtype == VT_INT64 || vtype == VT_FLOAT64) && off + 12 <= data.len() && data.subrange(off + 8, off + 12) == le_bytes(
            count,
            4,
        ) ==> rle_run(data, off, vtype) == Some((data.subrange(off, off + 8), count, off + 12)),
        (vtype == VT_STRING || vtype == VT_VARIANT || vtype == VT_BINARY) && off + 8 + s.len() <= data.len() && data.subrange(
            off,
            off + 8 + s.len(),
        ) == le_bytes(s.len(), 4) + s + le_bytes(count, 4) ==> rle_run(data, off, vtype) == Some(
            (s, count, off + 8 + s.len()),
        ),
        off + 4 > data.len() ==> rle_run(data, off, vtype) is None,
{
    if off + 12 <= data.len() && data.subrange(off + 8, off + 12) == le_bytes(count, 4) {
        lemma_length_at(data, off + 8, count);
    }
    let n = s.len() as int;
    if off + 8 + n <= data.len() && data.subrange(off, off + 8 + n) == le_bytes(s.len(), 4) + s + le_bytes(count, 4) {
        lemma_le_bytes_len(s.len(), 4);
        lemma_le_bytes_len(count, 4);
        let whole = data.subrange(off, off + 8 + n);
        assert(data.subrange(off, off + 4) =~= whole.subrange(0, 4));
        assert(whole.subrange(0, 4) =~= le_bytes(s.len(), 4));
        assert(data.subrange(off + 4, off + 4 + n) =~= whole.subrange(4, 4 + n));
        assert(whole.subrange(4, 4 + n) =~= s);
        assert(data.subrange(off + 4 + n, off + 8 + n) =~= whole.subrange(4 + n, 8 + n));
        assert(whole.subrange(4 + n, 8 + n) =~= le_bytes(count, 4));
        lemma_length_at(data, off, s.len());
        lemma_length_at(data, off + 4 + n, count);
    }
}

/// A code stands for the entry of its number, and for nothing beyond the last.
pub proof fn codes_stand_for_their_entries(entries: Seq<Seq<u8>>, code: nat, vtype: u8, i: int)
    requires
        0 <= i < entries.len(),
    ensures
        code < entries.len() ==> dict_cell(entries, code) == entries[code as int],
        code >= entries.len() ==> dict_cell(entries, code).len() == 0,
        cells_column(vtype, entries).n == entries.len(),
        vtype == VT_STRING ==> cells_column(vtype, entries).strs == entries,
        vtype == VT_BINARY ==> cells_column(vtype, entries).bins == entries,
        vtype == VT_INT64 ==> cells_column(vtype, entries).ints[i] == crate::bytes::as_signed(le_value(entries[i])),
        vtype == VT_FLOAT64 ==> cells_column(vtype, entries).floats[i] == le_value(entries[i]) as u64,
{
}

/// Strings that are missing at the end of a column are empty, and a column of nulls has
/// its rows and no values.
pub proof fn columns_have_all_their_rows(data: Seq<u8>, payload: Seq<u8>, n_rows: nat)
    requires
        payload.len() > 0,
    ensures
        raw_strings(data, n_rows).len() == n_rows,
        raw_view(payload, VT_STRING, n_rows).n == n_rows,
        raw_view(payload, VT_VARIANT, n_rows).n == n_rows,
        raw_view(payload, VT_NULL, n_rows).n == n_rows,
        raw_view(payload, VT_NULL, n_rows).ints.len() == 0 && raw_view(payload, VT_NULL, n_rows).strs.len() == 0,
{
}

proof fn lemma_filtered(cols: Seq<ColumnView>, projection: Option<Seq<Seq<u8>>>, c: ColumnView)
    ensures
        projected(cols, projection).contains(c) <==> cols.contains(c) && wanted(projection, c.name),
{
    let p = |c: ColumnView| wanted(projection, c.name);
    if cols.contains(c) && p(c) {
        let i = choose|i: int| 0 <= i < cols.len() && cols[i] == c;
        cols.lemma_filter_contains(p, i);
    }
    if cols.filter(p).contains(c) {
        let i = choose|i: int| 0 <= i < cols.filter(p).len() && cols.filter(p)[i] == c;
        cols.lemma_filter_pred(p, i);
        cols.lemma_filter_contains_rev(p, c);
    }
}

/// A projection leaves the columns that it names; without one all are there.
pub proof fn projections_leave_the_named_columns(cols: Seq<ColumnView>, names: Seq<Seq<u8>>, c: ColumnView)
    ensures
        projected(cols, Some(names)).contains(c) <==> cols.contains(c) && names.contains(c.name),
        projected(cols, None).contains(c) <==> cols.contains(c),
{
    lemma_filtered(cols, Some(names), c);
    lemma_filtered(cols, None, c);
}

/// A blob with another start, version or compression is refused, for the first of these.
pub proof fn other_blobs_are_refused(blob: Seq<u8>, projection: Option<Seq<Seq<u8>>>)
    ensures
        blob.len() < 13 || blob[0] != 80 || blob[1] != 78 || blob[2] != 68 || blob[3] != 50 ==> decoded(blob, projection)
            == Err::<Seq<ColumnView>, DecodeErrorView>(DecodeErrorView::NotPnd2),
        blob.len() >= 13 && blob[0] == 80 && blob[1] == 78 && blob[2] == 68 && blob[3] == 50 && blob[4] != 2 ==> decoded(
            blob,
            projection,
        ) == Err::<Seq<ColumnView>, DecodeErrorView>(DecodeErrorView::UnsupportedVersion(blob[4])),
        blob.len() >= 13 && blob[0] == 80 && blob[1] == 78 && blob[2] == 68 && blob[3] == 50 && blob[4] == 2 && blob[12] != 0
            && blob[12] != 2 ==> decoded(blob, projection) == Err::<Seq<ColumnView>, DecodeErrorView>(
            DecodeErrorView::UnknownCompression(blob[12]),
        ),
        header_stats(blob) <==> blob[5] % 2 == 1,
{
    let head = seq![80u8, 78u8, 68u8, 50u8];
    if blob.len() >= 13 {
        if blob[0] == 80 && blob[1] == 78 && blob[2] == 68 && blob[3] == 50 {
            assert(blob.take(4) =~= head);
        } else if blob.take(4) == head {
            assert(blob.take(4)[0] == 80 && blob.take(4)[1] == 78 && blob.take(4)[2] == 68 && blob.take(4)[3] == 50);
        }
    }
}

/// The statistics of a column that was given are its bounds.
pub proof fn given_columns_have_their_bounds(s: ColumnStats, name: Seq<char>, v: Values)
    requires
        are_stats(s, name, v),
    ensures
        s.name@ == name && s.null_count == 0,
        v matches Values::Ints(x) ==> s.vtype == 1 && s.bounds == Bounds::Ints(least(x@), greatest(x@)),
        v matches Values::Floats(x) ==> s.vtype == 2 && s.bounds == Bounds::Floats(f64_least(x@), f64_greatest(x@)),
        v is Texts ==> s.vtype == 3 && s.bounds == Bounds::Absent,
{
}

/// The values of a column are had by its number and only as those of its type.
pub proof fn columns_are_had_by_number_and_type(cols: Seq<ColumnView>, i: int, row: int, vtype: u8)
    ensures
        typed_at(cols, i, vtype) is Some <==> 0 <= i < cols.len() && cols[i].vtype == vtype,
        typed_at(cols, i, vtype) matches Some(c) ==> c == cols[i],
        text_at(cols, i, VT_STRING, row) matches Some(s) ==> cols[i].vtype == VT_STRING && 0 <= row < cols[i].strs.len() && s
            == cols[i].strs[row],
        0 <= i < cols.len() && cols[i].vtype == VT_STRING && 0 <= row < cols[i].strs.len() ==> text_at(
            cols,
            i,
            VT_STRING,
            row,
        ) is Some,
        text_at(cols, i, VT_BINARY, row) matches Some(s) ==> cols[i].vtype == VT_BINARY && 0 <= row < cols[i].bins.len() && s
            == cols[i].bins[row],
        0 <= i < cols.len() && cols[i].vtype == VT_BINARY && 0 <= row < cols[i].bins.len() ==> text_at(
            cols,
            i,
            VT_BINARY,
            row,
        ) is Some,
{
}

} // verus!
