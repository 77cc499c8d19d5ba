//! The PND2 decoder: from a blob to its columns.
//!
//! A blob is a 13-byte header and the inner data: a schema entry for each
//! column, then the stats of each column, then the payload of each column.
//! Inner data that ends before the last payload is refused.

use vstd::prelude::*;
use vstd::arithmetic::power2::pow2;
use vstd::bits::lemma_u8_shr_is_div;
use vstd::slice::slice_subrange;
use crate::bitpack::unpack_bits;
use crate::bytes::{
    as_signed, copy_bytes, copy_range, le_at, read_i64, read_le, read_u32, to_signed,
};
use crate::constants::{
    ENC_BITPACK, ENC_DICT, ENC_RAW, ENC_RLE, NULL_LEN, VT_BINARY, VT_FLOAT64, VT_INT64, VT_NULL,
    VT_STRING, VT_VARIANT,
};
use crate::numeral::{field, le_value, lemma_pow2_8};
use crate::types::{bins_column, blank_column, byte_views, empty_column, floats_column, ints_column,
    strs_column, ColumnView, PondColumn};

verus! {

pub open spec fn min(a: int, b: int) -> int {
    if a <= b {
        a
    } else {
        b
    }
}

/// The length-prefixed byte strings from `off` on, at most `max` of them, and
/// where reading stopped. With `nulls`, one length is kept for the null value,
/// which reads as an empty string.
pub open spec fn strings(data: Seq<u8>, off: int, max: nat, nulls: bool) -> (Seq<Seq<u8>>, int)
    decreases max,
{
    if max == 0 || data.len() - off < 4 {
        (Seq::empty(), off)
    } else {
        let len = le_at(data, off, 4) as int;
        if nulls && len == NULL_LEN {
            let rest = strings(data, off + 4, (max - 1) as nat, nulls);
            (seq![Seq::empty()] + rest.0, rest.1)
        } else if len <= data.len() - off - 4 {
            let rest = strings(data, off + 4 + len, (max - 1) as nat, nulls);
            (seq![data.subrange(off + 4, off + 4 + len)] + rest.0, rest.1)
        } else {
            (Seq::empty(), off + 4)
        }
    }
}

/// Bit `i` of a bitmap, low bits first.
pub open spec fn bit_set(bitmap: Seq<u8>, i: int) -> bool {
    (bitmap[i / 8] as nat / pow2((i % 8) as nat)) % 2 == 1
}

/// How many of the first `i` rows the bitmap does not mark.
pub open spec fn unmarked_before(bitmap: Seq<u8>, i: nat) -> nat
    decreases i,
{
    if i == 0 {
        0
    } else {
        unmarked_before(bitmap, (i - 1) as nat) + if bit_set(bitmap, i - 1) {
            0nat
        } else {
            1nat
        }
    }
}

/// The value of row `i` where a bitmap marks the nulls and the values of the
/// other rows follow in order. Nulls, and rows without a value, are empty.
pub open spec fn masked_row(bitmap: Seq<u8>, vals: Seq<Seq<u8>>, i: nat) -> Seq<u8> {
    let k = unmarked_before(bitmap, i) as int;
    if !bit_set(bitmap, i as int) && k < vals.len() {
        vals[k]
    } else {
        Seq::empty()
    }
}

/// The `n_rows` values of a list of strings, which a null bitmap may precede.
pub open spec fn raw_strings(data: Seq<u8>, n_rows: nat) -> Seq<Seq<u8>> {
    let plain = strings(data, 0, n_rows, true).0;
    let bitmap_len = (n_rows + 7) / 8;
    if plain.len() < n_rows && data.len() > bitmap_len {
        let vals = strings(data, bitmap_len as int, n_rows, true).0;
        Seq::new(n_rows, |i: int| masked_row(data, vals, i as nat))
    } else {
        Seq::new(
            n_rows,
            |i: int|
                if i < plain.len() {
                    plain[i]
                } else {
                    Seq::empty()
                },
        )
    }
}

/// What a RAW payload holds: a type byte and the values. A BINARY payload has
/// a count in place of the type byte.
pub open spec fn raw_view(payload: Seq<u8>, vtype: u8, n_rows: nat) -> ColumnView {
    let n = min((payload.len() - 1) / 8, n_rows as int) as nat;
    if payload.len() == 0 {
        empty_column(vtype)
    } else if vtype == VT_BINARY {
        if payload.len() < 4 {
            empty_column(VT_BINARY)
        } else {
            bins_column(VT_BINARY, strings(payload, 4, le_at(payload, 0, 4), true).0)
        }
    } else if vtype == VT_INT64 {
        ints_column(vtype, Seq::new(n, |i: int| as_signed(le_at(payload, 1 + 8 * i, 8))))
    } else if vtype == VT_FLOAT64 {
        floats_column(vtype, Seq::new(n, |i: int| le_at(payload, 1 + 8 * i, 8) as u64))
    } else if vtype == VT_STRING || vtype == VT_VARIANT {
        strs_column(vtype, raw_strings(payload.skip(1), n_rows))
    } else if vtype == VT_NULL {
        blank_column(vtype, n_rows)
    } else {
        empty_column(vtype)
    }
}

/// How many of `n_rows` fields of `width` bits `len` bytes hold.
pub open spec fn fields_held(len: int, width: int, n_rows: nat) -> nat {
    min(n_rows as int, len * 8 / width) as nat
}

/// What a BITPACK payload holds: bit width, offset, min, max, packed fields.
/// Each value is its field plus the offset, in 64-bit arithmetic.
pub open spec fn bitpack_view(payload: Seq<u8>, n_rows: nat) -> ColumnView {
    if payload.len() < 25 || payload[0] == 0 || payload[0] > 64 {
        empty_column(VT_INT64)
    } else {
        let width = payload[0] as nat;
        let fields = le_value(payload.skip(25));
        let offset = le_at(payload, 1, 8);
        ints_column(
            VT_INT64,
            Seq::new(
                fields_held(payload.len() - 25, width as int, n_rows),
                |i: int|
                    as_signed((field(fields, width, i as nat) + offset) % 0x1_0000_0000_0000_0000),
            ),
        )
    }
}

/// The column whose rows are the given byte strings, read by the type.
pub open spec fn cells_column(vtype: u8, cells: Seq<Seq<u8>>) -> ColumnView {
    if vtype == VT_INT64 {
        ints_column(vtype, Seq::new(cells.len(), |i: int| as_signed(le_value(cells[i]))))
    } else if vtype == VT_FLOAT64 {
        floats_column(vtype, Seq::new(cells.len(), |i: int| le_value(cells[i]) as u64))
    } else if vtype == VT_STRING {
        strs_column(vtype, cells)
    } else if vtype == VT_BINARY {
        bins_column(vtype, cells)
    } else {
        blank_column(vtype, cells.len())
    }
}

/// The entries of a dictionary of the given type, and where they end.
pub open spec fn dict_entries(payload: Seq<u8>, vtype: u8, n_unique: nat) -> (Seq<Seq<u8>>, int) {
    if vtype == VT_INT64 || vtype == VT_FLOAT64 {
        let n = min(n_unique as int, (payload.len() - 5) / 8);
        (Seq::new(n as nat, |i: int| payload.subrange(5 + 8 * i, 13 + 8 * i)), 5 + 8 * n)
    } else if vtype == VT_STRING || vtype == VT_VARIANT || vtype == VT_BINARY {
        strings(payload, 5, n_unique, false)
    } else {
        (Seq::empty(), 5)
    }
}

/// The entry that a code stands for; a code past the dictionary is empty.
pub open spec fn dict_cell(entries: Seq<Seq<u8>>, code: nat) -> Seq<u8> {
    if code < entries.len() {
        entries[code as int]
    } else {
        Seq::empty()
    }
}

/// What a DICT payload holds: entry count, type, entries, code width, codes.
pub open spec fn dict_view(payload: Seq<u8>, vtype: u8, n_rows: nat) -> ColumnView {
    if payload.len() < 5 {
        empty_column(vtype)
    } else {
        let dict_vtype = payload[4];
        let dict = dict_entries(payload, dict_vtype, le_at(payload, 0, 4));
        let off = dict.1;
        if off >= payload.len() || payload[off] == 0 || payload[off] > 64 {
            empty_column(dict_vtype)
        } else {
            let width = payload[off] as nat;
            let codes = le_value(payload.skip(off + 1));
            cells_column(
                dict_vtype,
                Seq::new(
                    fields_held(payload.len() - off - 1, width as int, n_rows),
                    |i: int| dict_cell(dict.0, field(codes, width, i as nat)),
                ),
            )
        }
    }
}

/// One run: its value, its length, and where the next run starts.
pub open spec fn rle_run(data: Seq<u8>, off: int, vtype: u8) -> Option<(Seq<u8>, nat, int)> {
    if vtype == VT_INT64 || vtype == VT_FLOAT64 {
        if data.len() - off < 12 {
            None
        } else {
            Some((data.subrange(off, off + 8), le_at(data, off + 8, 4), off + 12))
        }
    } else if vtype == VT_STRING || vtype == VT_VARIANT || vtype == VT_BINARY {
        if data.len() - off < 4 {
            None
        } else {
            let end = off + 4 + le_at(data, off, 4);
            if data.len() - end < 4 {
                None
            } else {
                Some((data.subrange(off + 4, end), le_at(data, end, 4), end + 4))
            }
        }
    } else {
        None
    }
}

/// The rows of at most `runs` runs from `off` on, cut after `rows` rows.
pub open spec fn rle_cells(data: Seq<u8>, off: int, runs: nat, rows: nat, vtype: u8) -> Seq<Seq<u8>>
    decreases runs,
{
    match rle_run(data, off, vtype) {
        Some((value, count, next)) if runs > 0 && rows > 0 => {
            let k = min(count as int, rows as int) as nat;
            Seq::new(k, |i: int| value) + rle_cells(
                data,
                next,
                (runs - 1) as nat,
                (rows - k) as nat,
                vtype,
            )
        },
        _ => Seq::empty(),
    }
}

/// What an RLE payload holds: a type byte (BINARY has none), the number of
/// runs, the runs.
pub open spec fn rle_view(payload: Seq<u8>, vtype: u8, n_rows: nat) -> ColumnView {
    let start: int = if vtype == VT_BINARY {
        0
    } else {
        1
    };
    if payload.len() < start + 4 {
        empty_column(vtype)
    } else {
        let cells = rle_cells(payload, start + 4, le_at(payload, start, 4), n_rows, vtype);
        if vtype == VT_VARIANT {
            bins_column(vtype, cells)
        } else {
            cells_column(vtype, cells)
        }
    }
}

/// What a payload holds under a column's encoding.
pub open spec fn column_view(payload: Seq<u8>, vtype: u8, enc: u8, n_rows: nat) -> ColumnView {
    if enc == ENC_RAW {
        raw_view(payload, vtype, n_rows)
    } else if enc == ENC_BITPACK {
        bitpack_view(payload, n_rows)
    } else if enc == ENC_DICT {
        dict_view(payload, vtype, n_rows)
    } else if enc == ENC_RLE {
        rle_view(payload, vtype, n_rows)
    } else {
        empty_column(vtype)
    }
}

proof fn lemma_le8_bound(s: Seq<u8>, off: int)
    requires
        0 <= off,
        off + 8 <= s.len(),
    ensures
        le_at(s, off, 8) <= 0xFFFF_FFFF_FFFF_FFFF,
{
    lemma_pow2_8();
    crate::numeral::lemma_le_value_bound(s.subrange(off, off + 8));
}

/// Reads length-prefixed byte strings.
pub fn read_strings(data: &[u8], off: usize, max: usize, nulls: bool) -> (r: (Vec<Vec<u8>>, usize))
    requires
        off <= data@.len(),
    ensures
        byte_views(r.0@) == strings(data@, off as int, max as nat, nulls).0,
        r.1 == strings(data@, off as int, max as nat, nulls).1,
        r.0@.len() <= max,
        r.1 <= data@.len(),
{
    let mut vals: Vec<Vec<u8>> = Vec::new();
    let mut pos: usize = off;
    let mut left: usize = max;
    let ghost all = strings(data@, off as int, max as nat, nulls);
    proof {
        assert(byte_views(vals@) + all.0 =~= all.0);
    }
    while left > 0 && data.len() - pos >= 4
        invariant_except_break
            pos <= data@.len(),
            left <= max,
            vals@.len() == max - left,
            all.0 == byte_views(vals@) + strings(data@, pos as int, left as nat, nulls).0,
            all.1 == strings(data@, pos as int, left as nat, nulls).1,
        ensures
            pos <= data@.len(),
            vals@.len() <= max,
            all.0 == byte_views(vals@),
            all.1 == pos,
        decreases left,
    {
        let len = read_u32(data, pos);
        let ghost here = strings(data@, pos as int, left as nat, nulls);
        let ghost before = byte_views(vals@);
        pos = pos + 4;
        if nulls && len == NULL_LEN {
            let ghost rest = strings(data@, pos as int, (left - 1) as nat, nulls);
            vals.push(Vec::new());
            proof {
                let e: Seq<u8> = Seq::empty();
                assert(here.0 == seq![e] + rest.0);
                assert(byte_views(vals@) =~= before.push(e));
                assert(before + (seq![e] + rest.0) =~= before.push(e) + rest.0);
            }
        } else if len as usize <= data.len() - pos {
            let end: usize = pos + len as usize;
            let v = copy_range(data, pos, end);
            let ghost rest = strings(data@, end as int, (left - 1) as nat, nulls);
            let ghost e = v@;
            vals.push(v);
            proof {
                assert(here.0 == seq![e] + rest.0);
                assert(byte_views(vals@) =~= before.push(e));
                assert(before + (seq![e] + rest.0) =~= before.push(e) + rest.0);
            }
            pos = end;
        } else {
            proof {
                assert(here.0 =~= Seq::<Seq<u8>>::empty());
                assert(before + here.0 =~= before);
            }
            break;
        }
        left = left - 1;
        proof {
            if left == 0 || data@.len() - pos < 4 {
                assert(byte_views(vals@) + strings(data@, pos as int, left as nat, nulls).0
                    =~= byte_views(vals@));
            }
        }
    }
    (vals, pos)
}

/// Tests one bit of a bitmap.
fn test_bit(bitmap: &[u8], i: usize) -> (r: bool)
    requires
        i / 8 < bitmap@.len(),
    ensures
        r == bit_set(bitmap@, i as int),
{
    let k: u8 = (i % 8) as u8;
    let b: u8 = bitmap[i / 8];
    proof {
        lemma_u8_shr_is_div(b, k);
    }
    (b >> k) % 2 == 1
}

/// Reads the values of a RAW column of strings, after its type byte.
pub fn decode_raw_string_or_binary(data: &[u8], vtype: u8, n_rows: usize) -> (r: PondColumn)
    ensures
        (vtype == VT_STRING || vtype == VT_VARIANT) ==> r@ == strs_column(
            vtype,
            raw_strings(data@, n_rows as nat),
        ),
        !(vtype == VT_STRING || vtype == VT_VARIANT) ==> r@ == bins_column(
            vtype,
            raw_strings(data@, n_rows as nat),
        ),
{
    let (plain, _end) = read_strings(data, 0, n_rows, true);
    let mut out: Vec<Vec<u8>> = Vec::new();
    let bitmap_len: usize = if n_rows % 8 == 0 {
        n_rows / 8
    } else {
        n_rows / 8 + 1
    };
    let ghost want = raw_strings(data@, n_rows as nat);
    if plain.len() < n_rows && data.len() > bitmap_len {
        let (vals, _end2) = read_strings(data, bitmap_len, n_rows, true);
        let mut next: usize = 0;
        let mut i: usize = 0;
        let ghost vv = byte_views(vals@);
        while i < n_rows
            invariant
                i <= n_rows,
                bitmap_len == (n_rows + 7) / 8,
                bitmap_len < data@.len(),
                vv == byte_views(vals@),
                next == min(unmarked_before(data@, i as nat) as int, vv.len() as int),
                want.len() == n_rows,
                forall|k: int| 0 <= k < n_rows ==> #[trigger] want[k] == masked_row(data@, vv, k as nat),
                byte_views(out@) == want.take(i as int),
            decreases n_rows - i,
        {
            let ghost before = out@;
            let null = test_bit(data, i);
            if !null && next < vals.len() {
                let v = copy_bytes(&vals[next]);
                out.push(v);
                next = next + 1;
            } else {
                out.push(Vec::new());
            }
            proof {
                let e = out@.last()@;
                assert(e =~= want[i as int]);
                assert(byte_views(out@) =~= byte_views(before).push(e));
                assert(want.take(i as int + 1) =~= want.take(i as int).push(want[i as int]));
            }
            i = i + 1;
        }
    } else {
        let ghost pv = byte_views(plain@);
        out = plain;
        proof {
            assert(byte_views(out@) =~= want.take(out@.len() as int));
        }
        while out.len() < n_rows
            invariant
                pv.len() <= out@.len() <= n_rows,
                want.len() == n_rows,
                forall|k: int| pv.len() <= k < n_rows ==> #[trigger] want[k] == Seq::<u8>::empty(),
                byte_views(out@) == want.take(out@.len() as int),
            decreases n_rows - out@.len(),
        {
            let ghost before = out@;
            out.push(Vec::new());
            proof {
                let k = before.len() as int;
                let e = out@.last()@;
                assert(e =~= want[k]);
                assert(byte_views(out@) =~= byte_views(before).push(e));
                assert(want.take(k + 1) =~= want.take(k).push(want[k]));
            }
        }
    }
    proof {
        assert(want.take(n_rows as int) =~= want);
    }
    build_string_or_binary_col(vtype, out)
}

/// The column of a list of strings.
fn build_string_or_binary_col(vtype: u8, vals: Vec<Vec<u8>>) -> (r: PondColumn)
    ensures
        (vtype == VT_STRING || vtype == VT_VARIANT) ==> r@ == strs_column(vtype, byte_views(vals@)),
        !(vtype == VT_STRING || vtype == VT_VARIANT) ==> r@ == bins_column(
            vtype,
            byte_views(vals@),
        ),
{
    if vtype == VT_STRING || vtype == VT_VARIANT {
        PondColumn::of_strs(vtype, vals)
    } else {
        PondColumn::of_bins(vtype, vals)
    }
}

fn decode_raw_binary(payload: &[u8]) -> (r: PondColumn)
    requires
        payload@.len() > 0,
    ensures
        r@ == raw_view(payload@, VT_BINARY, 0),
{
    if payload.len() < 4 {
        return PondColumn::empty(VT_BINARY);
    }
    let n_values = read_u32(payload, 0);
    let (vals, _end) = read_strings(payload, 4, n_values as usize, true);
    PondColumn::of_bins(VT_BINARY, vals)
}

/// Decodes a RAW payload.
pub fn decode_raw(payload: &[u8], vtype: u8, n_rows: usize) -> (r: PondColumn)
    ensures
        r@ == raw_view(payload@, vtype, n_rows as nat),
{
    if payload.len() == 0 {
        return PondColumn::empty(vtype);
    }
    if vtype == VT_BINARY {
        return decode_raw_binary(payload);
    }
    let held: usize = (payload.len() - 1) / 8;
    let n: usize = if held <= n_rows {
        held
    } else {
        n_rows
    };
    if vtype == VT_INT64 {
        let mut vals: Vec<i64> = Vec::with_capacity(n);
        let mut i: usize = 0;
        while i < n
            invariant
                i <= n,
                8 * n + 1 <= payload.len(),
                vals@.len() == i,
                forall|k: int| 0 <= k < i ==> #[trigger] vals@[k] == as_signed(
                    le_at(payload@, 1 + 8 * k, 8),
                ),
            decreases n - i,
        {
            vals.push(read_i64(payload, 1 + 8 * i));
            i = i + 1;
        }
        proof {
            assert(vals@ =~= raw_view(payload@, vtype, n_rows as nat).ints);
        }
        PondColumn::of_ints(vtype, vals)
    } else if vtype == VT_FLOAT64 {
        let mut vals: Vec<u64> = Vec::with_capacity(n);
        let mut i: usize = 0;
        while i < n
            invariant
                i <= n,
                8 * n + 1 <= payload.len(),
                vals@.len() == i,
                forall|k: int| 0 <= k < i ==> #[trigger] vals@[k] == le_at(payload@, 1 + 8 * k, 8) as u64,
            decreases n - i,
        {
            vals.push(read_le(payload, 1 + 8 * i, 8));
            i = i + 1;
        }
        proof {
            assert(vals@ =~= raw_view(payload@, vtype, n_rows as nat).floats);
        }
        PondColumn::of_floats(vtype, vals)
    } else if vtype == VT_STRING || vtype == VT_VARIANT {
        let data = slice_subrange(payload, 1, payload.len());
        proof {
            assert(data@ =~= payload@.skip(1));
        }
        decode_raw_string_or_binary(data, vtype, n_rows)
    } else if vtype == VT_NULL {
        PondColumn { n_values: n_rows, ..PondColumn::empty(vtype) }
    } else {
        PondColumn::empty(vtype)
    }
}


/// How many whole fields of `width` bits `len` bytes hold, up to `n_rows`.
fn count_fields(len: usize, width: u8, n_rows: usize) -> (r: usize)
    requires
        1 <= width <= 64,
    ensures
        r == fields_held(len as int, width as int, n_rows as nat),
        r * width <= 8 * len,
{
    let held: u128 = len as u128 * 8 / width as u128;
    let r: usize = if (n_rows as u128) <= held {
        n_rows
    } else {
        held as usize
    };
    proof {
        assert(held as int * width as int <= len as int * 8) by (nonlinear_arith)
            requires held as int == (len as int * 8) / width as int, width as int > 0,
        ;
        assert(r as int * width as int <= held as int * width as int) by (nonlinear_arith)
            requires r as int <= held as int, width as int > 0,
        ;
    }
    r
}

/// Decodes a BITPACK payload.
pub fn decode_bitpack(payload: &[u8], n_rows: usize) -> (r: PondColumn)
    ensures
        r@ == bitpack_view(payload@, n_rows as nat),
{
    if payload.len() < 25 {
        return PondColumn::empty(VT_INT64);
    }
    let width = payload[0];
    if width == 0 || width > 64 {
        return PondColumn::empty(VT_INT64);
    }
    let offset: u64 = read_le(payload, 1, 8);
    let fields_at = slice_subrange(payload, 25, payload.len());
    let n: usize = count_fields(payload.len() - 25, width, n_rows);
    let fields = unpack_bits(fields_at, width as u32, n);
    let ghost want = bitpack_view(payload@, n_rows as nat).ints;
    proof {
        assert(fields_at@ =~= payload@.skip(25));
    }
    let mut vals: Vec<i64> = Vec::with_capacity(n);
    let mut i: usize = 0;
    while i < n
        invariant
            i <= n,
            fields@.len() == n,
            want.len() == n,
            offset == le_at(payload@, 1, 8),
            forall|k: int| 0 <= k < n ==> #[trigger] fields@[k] == field(
                le_value(payload@.skip(25)),
                width as nat,
                k as nat,
            ),
            forall|k: int| 0 <= k < n ==> #[trigger] want[k] == as_signed(
                (field(le_value(payload@.skip(25)), width as nat, k as nat) + le_at(payload@, 1, 8))
                    % 0x1_0000_0000_0000_0000,
            ),
            vals@ == want.take(i as int),
        decreases n - i,
    {
        let sum: u64 = fields[i].wrapping_add(offset);
        vals.push(to_signed(sum));
        proof {
            assert(fields@[i as int] == field(le_value(payload@.skip(25)), width as nat, i as nat));
            assert(want.take(i as int + 1) =~= want.take(i as int).push(want[i as int]));
        }
        i = i + 1;
    }
    proof {
        assert(want.take(n as int) =~= want);
    }
    PondColumn::of_ints(VT_INT64, vals)
}

/// The rows that codes stand for in a dictionary of 8-byte entries.
fn fixed_cells(payload: &[u8], n_entries: usize, codes: &Vec<u64>) -> (r: Vec<u64>)
    requires
        5 + 8 * n_entries <= payload@.len(),
    ensures
        r@.len() == codes@.len(),
        forall|i: int| 0 <= i < codes@.len() ==> #[trigger] r@[i] as nat == le_value(
            dict_cell(
                Seq::new(n_entries as nat, |k: int| payload@.subrange(5 + 8 * k, 13 + 8 * k)),
                codes@[i] as nat,
            ),
        ),
{
    let ghost entries = Seq::new(
        n_entries as nat,
        |k: int| payload@.subrange(5 + 8 * k, 13 + 8 * k),
    );
    let mut out: Vec<u64> = Vec::with_capacity(codes.len());
    let mut i: usize = 0;
    while i < codes.len()
        invariant
            i <= codes@.len(),
            5 + 8 * n_entries <= payload.len(),
            entries == Seq::new(
                n_entries as nat,
                |k: int| payload@.subrange(5 + 8 * k, 13 + 8 * k),
            ),
            out@.len() == i,
            forall|k: int| 0 <= k < i ==> #[trigger] out@[k] as nat == le_value(
                dict_cell(entries, codes@[k] as nat),
            ),
        decreases codes@.len() - i,
    {
        let code: u64 = codes[i];
        if code < n_entries as u64 {
            let v: u64 = read_le(payload, 5 + 8 * (code as usize), 8);
            proof {
                assert(dict_cell(entries, code as nat) =~= payload@.subrange(
                    5 + 8 * code as int,
                    5 + 8 * code as int + 8,
                ));
            }
            out.push(v);
        } else {
            out.push(0);
        }
        i = i + 1;
    }
    out
}

/// The rows that codes stand for in a dictionary of byte strings.
fn string_cells(entries: &Vec<Vec<u8>>, codes: &Vec<u64>) -> (r: Vec<Vec<u8>>)
    ensures
        byte_views(r@) == Seq::new(
            codes@.len(),
            |i: int| dict_cell(byte_views(entries@), codes@[i] as nat),
        ),
{
    let ghost want = Seq::new(
        codes@.len(),
        |i: int| dict_cell(byte_views(entries@), codes@[i] as nat),
    );
    let mut out: Vec<Vec<u8>> = Vec::with_capacity(codes.len());
    let mut i: usize = 0;
    proof {
        assert(byte_views(out@) =~= want.take(0));
    }
    while i < codes.len()
        invariant
            i <= codes@.len(),
            want == Seq::new(
                codes@.len(),
                |i: int| dict_cell(byte_views(entries@), codes@[i] as nat),
            ),
            byte_views(out@) == want.take(i as int),
        decreases codes@.len() - i,
    {
        let ghost before = out@;
        let code: u64 = codes[i];
        if code < entries.len() as u64 {
            let v = copy_bytes(&entries[code as usize]);
            out.push(v);
        } else {
            out.push(Vec::new());
        }
        proof {
            let e = out@.last()@;
            assert(e =~= want[i as int]);
            assert(byte_views(out@) =~= byte_views(before).push(e));
            assert(want.take(i as int + 1) =~= want.take(i as int).push(want[i as int]));
        }
        i = i + 1;
    }
    proof {
        assert(want.take(codes@.len() as int) =~= want);
    }
    out
}

fn to_signed_all(v: &Vec<u64>) -> (r: Vec<i64>)
    ensures
        r@ == Seq::new(v@.len(), |i: int| as_signed(v@[i] as nat)),
{
    let mut out: Vec<i64> = Vec::with_capacity(v.len());
    let mut i: usize = 0;
    while i < v.len()
        invariant
            i <= v@.len(),
            out@ == Seq::new(i as nat, |k: int| as_signed(v@[k] as nat)),
        decreases v@.len() - i,
    {
        out.push(to_signed(v[i]));
        i = i + 1;
        proof {
            assert(out@ =~= Seq::new(i as nat, |k: int| as_signed(v@[k] as nat)));
        }
    }
    out
}

/// Decodes a DICT payload. The payload carries its own value type.
pub fn decode_dict(payload: &[u8], vtype: u8, n_rows: usize) -> (r: PondColumn)
    ensures
        r@ == dict_view(payload@, vtype, n_rows as nat),
{
    if payload.len() < 5 {
        return PondColumn::empty(vtype);
    }
    let n_unique: usize = read_u32(payload, 0) as usize;
    let dict_vtype = payload[4];
    let ghost dict = dict_entries(payload@, dict_vtype, n_unique as nat);
    let fixed: bool = dict_vtype == VT_INT64 || dict_vtype == VT_FLOAT64;
    let held: usize = (payload.len() - 5) / 8;
    let n_fixed: usize = if n_unique <= held {
        n_unique
    } else {
        held
    };
    let mut entries: Vec<Vec<u8>> = Vec::new();
    let mut off: usize = 5;
    if fixed {
        off = 5 + 8 * n_fixed;
    } else if dict_vtype == VT_STRING || dict_vtype == VT_VARIANT || dict_vtype == VT_BINARY {
        let (read, end) = read_strings(payload, 5, n_unique, false);
        entries = read;
        off = end;
    } else {
        proof {
            assert(byte_views(entries@) =~= dict.0);
        }
    }
    if off >= payload.len() {
        return PondColumn::empty(dict_vtype);
    }
    let width = payload[off];
    if width == 0 || width > 64 {
        return PondColumn::empty(dict_vtype);
    }
    let codes_at = slice_subrange(payload, off + 1, payload.len());
    proof {
        assert(codes_at@ =~= payload@.skip(off + 1));
    }
    let n: usize = count_fields(payload.len() - off - 1, width, n_rows);
    let codes = unpack_bits(codes_at, width as u32, n);
    let ghost cells = Seq::new(
        n as nat,
        |i: int| dict_cell(dict.0, field(le_value(payload@.skip(off + 1)), width as nat, i as nat)),
    );
    if fixed {
        let vals = fixed_cells(payload, n_fixed, &codes);
        proof {
            assert forall|i: int| 0 <= i < n implies #[trigger] vals@[i] as nat == le_value(cells[i]) by {
                assert(codes@[i] as nat == field(
                    le_value(payload@.skip(off + 1)),
                    width as nat,
                    i as nat,
                ));
            }
        }
        if dict_vtype == VT_INT64 {
            let ints = to_signed_all(&vals);
            proof {
                assert(ints@ =~= cells_column(dict_vtype, cells).ints);
            }
            PondColumn::of_ints(dict_vtype, ints)
        } else {
            proof {
                assert(vals@ =~= cells_column(dict_vtype, cells).floats);
            }
            PondColumn::of_floats(dict_vtype, vals)
        }
    } else if dict_vtype == VT_STRING || dict_vtype == VT_BINARY {
        let strs = string_cells(&entries, &codes);
        proof {
            assert(byte_views(strs@) =~= cells);
        }
        if dict_vtype == VT_STRING {
            PondColumn::of_strs(dict_vtype, strs)
        } else {
            PondColumn::of_bins(dict_vtype, strs)
        }
    } else {
        PondColumn { n_values: n, ..PondColumn::empty(dict_vtype) }
    }
}

/// One run: where its value starts and ends, its length, where the next starts.
fn read_run(data: &[u8], off: usize, vtype: u8) -> (r: Option<(usize, usize, usize, usize)>)
    requires
        off <= data@.len(),
    ensures
        r is Some <==> rle_run(data@, off as int, vtype) is Some,
        r matches Some((start, end, count, next)) ==> {
            &&& off <= start <= end <= next <= data@.len()
            &&& rle_run(data@, off as int, vtype) == Some(
                (data@.subrange(start as int, end as int), count as nat, next as int),
            )
            &&& (vtype == VT_INT64 || vtype == VT_FLOAT64) ==> end == start + 8
        },
{
    let left: usize = data.len() - off;
    if vtype == VT_INT64 || vtype == VT_FLOAT64 {
        if left < 12 {
            return None;
        }
        let count: usize = read_u32(data, off + 8) as usize;
        Some((off, off + 8, count, off + 12))
    } else if vtype == VT_STRING || vtype == VT_VARIANT || vtype == VT_BINARY {
        if left < 4 {
            return None;
        }
        let len: usize = read_u32(data, off) as usize;
        if left - 4 < len || left - 4 - len < 4 {
            return None;
        }
        let end: usize = off + 4 + len;
        let count: usize = read_u32(data, end) as usize;
        Some((off + 4, end, count, end + 4))
    } else {
        None
    }
}

/// The rows of a run-length coded list, as words: each value is 8 bytes.
fn rle_words(data: &[u8], start: usize, n_runs: usize, n_rows: usize, vtype: u8) -> (r: Vec<u64>)
    requires
        start <= data@.len(),
        vtype == VT_INT64 || vtype == VT_FLOAT64,
    ensures
        r@ == Seq::new(
            rle_cells(data@, start as int, n_runs as nat, n_rows as nat, vtype).len(),
            |i: int|
                le_value(
                    rle_cells(data@, start as int, n_runs as nat, n_rows as nat, vtype)[i],
                ) as u64,
        ),
{
    let ghost all = rle_cells(data@, start as int, n_runs as nat, n_rows as nat, vtype);
    let ghost mut done: Seq<Seq<u8>> = Seq::empty();
    let mut out: Vec<u64> = Vec::new();
    let mut off: usize = start;
    let mut runs: usize = n_runs;
    proof {
        assert(done + all =~= all);
    }
    while runs > 0 && out.len() < n_rows
        invariant_except_break
            off <= data@.len(),
            out@.len() <= n_rows,
            all == done + rle_cells(
                data@,
                off as int,
                runs as nat,
                (n_rows - out@.len()) as nat,
                vtype,
            ),
        invariant
            vtype == VT_INT64 || vtype == VT_FLOAT64,
            out@.len() == done.len(),
            forall|i: int| 0 <= i < done.len() ==> #[trigger] out@[i] == le_value(done[i]) as u64,
        ensures
            all == done,
        decreases runs,
    {
        let ghost here = rle_cells(
            data@,
            off as int,
            runs as nat,
            (n_rows - out@.len()) as nat,
            vtype,
        );
        match read_run(data, off, vtype) {
            None => {
                proof {
                    assert(here =~= Seq::<Seq<u8>>::empty());
                    assert(done + here =~= done);
                }
                break;
            },
            Some((at, end, count, next)) => {
                let v: u64 = read_le(data, at, 8);
                let room: usize = n_rows - out.len();
                let k: usize = if count <= room {
                    count
                } else {
                    room
                };
                let ghost value = data@.subrange(at as int, end as int);
                let ghost done0 = done;
                let target: usize = out.len() + k;
                while out.len() < target
                    invariant
                        done0.len() <= out@.len() <= target,
                        target == done0.len() + k,
                        v == le_value(value),
                        done == done0 + Seq::new((out@.len() - done0.len()) as nat, |i: int| value),
                        forall|i: int| 0 <= i < done.len() ==> #[trigger] out@[i] == le_value(
                            done[i],
                        ) as u64,
                    decreases target - out@.len(),
                {
                    out.push(v);
                    proof {
                        let m = (out@.len() - done0.len()) as nat;
                        let next_done = done0 + Seq::new(m, |i: int| value);
                        assert(next_done =~= done.push(value));
                        done = next_done;
                    }
                }
                proof {
                    let rest = rle_cells(
                        data@,
                        next as int,
                        (runs - 1) as nat,
                        (n_rows - out@.len()) as nat,
                        vtype,
                    );
                    assert(here == Seq::new(k as nat, |i: int| value) + rest);
                    assert(done0 + here =~= done + rest);
                }
                off = next;
                runs = runs - 1;
                proof {
                    if runs == 0 || out@.len() >= n_rows {
                        let rest = rle_cells(
                            data@,
                            off as int,
                            runs as nat,
                            (n_rows - out@.len()) as nat,
                            vtype,
                        );
                        assert(rest =~= Seq::<Seq<u8>>::empty());
                        assert(done + rest =~= done);
                    }
                }
            },
        }
    }
    proof {
        assert(out@ =~= Seq::new(all.len(), |i: int| le_value(all[i]) as u64));
    }
    out
}

/// The rows of a run-length coded list of byte strings.
fn rle_strings(data: &[u8], start: usize, n_runs: usize, n_rows: usize, vtype: u8) -> (r: Vec<Vec<u8>>)
    requires
        start <= data@.len(),
    ensures
        byte_views(r@) == rle_cells(data@, start as int, n_runs as nat, n_rows as nat, vtype),
{
    let ghost all = rle_cells(data@, start as int, n_runs as nat, n_rows as nat, vtype);
    let mut out: Vec<Vec<u8>> = Vec::new();
    let mut off: usize = start;
    let mut runs: usize = n_runs;
    proof {
        assert(byte_views(out@) + all =~= all);
    }
    while runs > 0 && out.len() < n_rows
        invariant_except_break
            off <= data@.len(),
            out@.len() <= n_rows,
            all == byte_views(out@) + rle_cells(
                data@,
                off as int,
                runs as nat,
                (n_rows - out@.len()) as nat,
                vtype,
            ),
        ensures
            all == byte_views(out@),
        decreases runs,
    {
        let ghost here = rle_cells(
            data@,
            off as int,
            runs as nat,
            (n_rows - out@.len()) as nat,
            vtype,
        );
        match read_run(data, off, vtype) {
            None => {
                proof {
                    assert(here =~= Seq::<Seq<u8>>::empty());
                    assert(byte_views(out@) + here =~= byte_views(out@));
                }
                break;
            },
            Some((at, end, count, next)) => {
                let room: usize = n_rows - out.len();
                let k: usize = if count <= room {
                    count
                } else {
                    room
                };
                let ghost value = data@.subrange(at as int, end as int);
                let ghost done0 = byte_views(out@);
                let target: usize = out.len() + k;
                while out.len() < target
                    invariant
                        at <= end <= data@.len(),
                        value == data@.subrange(at as int, end as int),
                        done0.len() <= out@.len() <= target,
                        target == done0.len() + k,
                        byte_views(out@) == done0 + Seq::new(
                            (out@.len() - done0.len()) as nat,
                            |i: int| value,
                        ),
                    decreases target - out@.len(),
                {
                    let ghost before = byte_views(out@);
                    out.push(copy_range(data, at, end));
                    proof {
                        let m = (out@.len() - done0.len()) as nat;
                        assert(byte_views(out@) =~= before.push(value));
                        assert(done0 + Seq::new(m, |i: int| value) =~= before.push(value));
                    }
                }
                proof {
                    let rest = rle_cells(
                        data@,
                        next as int,
                        (runs - 1) as nat,
                        (n_rows - out@.len()) as nat,
                        vtype,
                    );
                    assert(here == Seq::new(k as nat, |i: int| value) + rest);
                    assert(done0 + here =~= byte_views(out@) + rest);
                }
                off = next;
                runs = runs - 1;
                proof {
                    if runs == 0 || out@.len() >= n_rows {
                        let rest = rle_cells(
                            data@,
                            off as int,
                            runs as nat,
                            (n_rows - out@.len()) as nat,
                            vtype,
                        );
                        assert(rest =~= Seq::<Seq<u8>>::empty());
                        assert(byte_views(out@) + rest =~= byte_views(out@));
                    }
                }
            },
        }
    }
    out
}

/// Decodes an RLE payload.
pub fn decode_rle(payload: &[u8], vtype: u8, n_rows: usize) -> (r: PondColumn)
    ensures
        r@ == rle_view(payload@, vtype, n_rows as nat),
{
    let start: usize = if vtype == VT_BINARY {
        0
    } else {
        1
    };
    if payload.len() < start + 4 {
        return PondColumn::empty(vtype);
    }
    let n_runs: usize = read_u32(payload, start) as usize;
    let ghost cells = rle_cells(
        payload@,
        start + 4,
        n_runs as nat,
        n_rows as nat,
        vtype,
    );
    if vtype == VT_INT64 || vtype == VT_FLOAT64 {
        let words = rle_words(payload, start + 4, n_runs, n_rows, vtype);
        if vtype == VT_INT64 {
            let ints = to_signed_all(&words);
            proof {
                lemma_rle_cells_len(payload@, start + 4, n_runs as nat, n_rows as nat, vtype);
                assert(ints@ =~= cells_column(vtype, cells).ints);
            }
            PondColumn::of_ints(vtype, ints)
        } else {
            PondColumn::of_floats(vtype, words)
        }
    } else {
        let strs = rle_strings(payload, start + 4, n_runs, n_rows, vtype);
        if vtype == VT_STRING {
            PondColumn::of_strs(vtype, strs)
        } else if vtype == VT_VARIANT || vtype == VT_BINARY {
            PondColumn::of_bins(vtype, strs)
        } else {
            proof {
                assert(cells =~= Seq::<Seq<u8>>::empty());
            }
            PondColumn::empty(vtype)
        }
    }
}

/// The cells of a run-length coded list of 8-byte values are 8 bytes long.
proof fn lemma_rle_cells_len(data: Seq<u8>, off: int, runs: nat, rows: nat, vtype: u8)
    requires
        0 <= off,
        vtype == VT_INT64 || vtype == VT_FLOAT64,
    ensures
        forall|i: int|
            0 <= i < rle_cells(data, off, runs, rows, vtype).len() ==> #[trigger] le_value(
                rle_cells(data, off, runs, rows, vtype)[i],
            ) < 0x1_0000_0000_0000_0000,
    decreases runs,
{
    let cells = rle_cells(data, off, runs, rows, vtype);
    match rle_run(data, off, vtype) {
        Some((value, count, next)) if runs > 0 && rows > 0 => {
            let k = min(count as int, rows as int) as nat;
            let rest = rle_cells(data, next, (runs - 1) as nat, (rows - k) as nat, vtype);
            lemma_rle_cells_len(data, next, (runs - 1) as nat, (rows - k) as nat, vtype);
            lemma_le8_bound(data, off);
            assert(value == data.subrange(off, off + 8));
            assert forall|i: int| 0 <= i < cells.len() implies #[trigger] le_value(cells[i])
                < 0x1_0000_0000_0000_0000 by {
                if i < k {
                    assert(cells[i] == value);
                } else {
                    assert(cells[i] == rest[i - k]);
                }
            }
        },
        _ => {},
    }
}

/// Decodes one column's payload. The column has no name: the schema holds it.
pub fn decode_column(payload: &[u8], vtype: u8, enc: u8, n_rows: usize) -> (r: PondColumn)
    ensures
        r@ == column_view(payload@, vtype, enc, n_rows as nat),
{
    if enc == ENC_RAW {
        decode_raw(payload, vtype, n_rows)
    } else if enc == ENC_BITPACK {
        decode_bitpack(payload, n_rows)
    } else if enc == ENC_DICT {
        decode_dict(payload, vtype, n_rows)
    } else if enc == ENC_RLE {
        decode_rle(payload, vtype, n_rows)
    } else {
        PondColumn::empty(vtype)
    }
}

} // verus!
