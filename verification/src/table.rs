//! Tables: columns of values that a blob is read into and made from.

use vstd::prelude::*;
use vstd::string::*;
use vstd::utf8::encode_utf8;
use crate::assemble::{assemble, blob_bytes, part_views, raw_floats_column, raw_floats_part, raw_ints_column,
    raw_ints_part, raw_strs_column, raw_strs_part, EncodedColumn, Part};
use crate::blob::{column_views, decoded, lemma_filter_all, pnd2_decode, wanted, DecodeErrorView};
use crate::bytes::copy_bytes;
use crate::constants::{VT_BINARY, VT_FLOAT64, VT_INT64, VT_STRING};
use crate::encode::{str_bytes, to_words};
use crate::float::{f64_greatest, f64_least, f64_min_max};
use crate::infer::masked;
use crate::predicate::{apply_op_f64, apply_op_i64, float_holds, int_holds, op_of, Op};
use crate::query::{holds_text, opt_texts};
use crate::round_trip::{blob_round_trip, floats_part_round_trip, ints_part_round_trip, lemma_word_parts_len, named,
    part_column, part_columns, part_ok, strs_part_round_trip};
use crate::rows::{shown_text, text_from_bytes};
use crate::seqs::{greatest, least, min_max};
use crate::text::{copy_text, same_text, text_views};
use crate::typed::text_bytes;
use crate::types::{byte_views, floats_column, ints_column, strs_column, ColumnView, PondColumn};

verus! {

/// What a predicate compares with: the value as a whole number and as a float,
/// where it is one.
pub struct Target {
    pub int: Option<i64>,
    pub float: Option<u64>,
}

/// A predicate on a column: name, comparison, value.
pub struct ColumnPredicate {
    pub column: String,
    pub op: String,
    pub target: Target,
}

/// The first column with a name.
pub open spec fn column_named(cols: Seq<ColumnView>, name: Seq<char>) -> Option<ColumnView>
    decreases cols.len(),
{
    if cols.len() == 0 {
        None
    } else {
        match column_named(cols.drop_last(), name) {
            Some(c) => Some(c),
            None => if shown_text(cols.last().name) == name {
                Some(cols.last())
            } else {
                None
            },
        }
    }
}

/// Whether a comparison holds in row `i` of a column. What is missing counts as
/// zero. Only whole numbers and floats are compared, and only by a comparison
/// that is known; anything else holds.
pub open spec fn cell_meets(col: ColumnView, op: Seq<char>, target: Target, i: int) -> bool {
    if op_of(op) == Op::Unknown {
        true
    } else if col.vtype == VT_INT64 {
        let cell = if i < col.ints.len() {
            col.ints[i] as int
        } else {
            0
        };
        let value = match target.int {
            Some(v) => v as int,
            None => 0,
        };
        int_holds(op_of(op), cell, value)
    } else if col.vtype == VT_FLOAT64 {
        let cell = if i < col.floats.len() {
            col.floats[i]
        } else {
            0
        };
        let value = match target.float {
            Some(v) => v,
            None => 0,
        };
        float_holds(op_of(op), cell, value)
    } else {
        true
    }
}

/// Whether row `i` meets a predicate. One on a column that is not there is met.
pub open spec fn row_meets(cols: Seq<ColumnView>, p: ColumnPredicate, i: int) -> bool {
    match column_named(cols, p.column@) {
        Some(col) => cell_meets(col, p.op@, p.target, i),
        None => true,
    }
}

/// The number of rows: that of the first column.
pub open spec fn table_rows(cols: Seq<ColumnView>) -> nat {
    if cols.len() == 0 {
        0
    } else {
        cols[0].n
    }
}

/// The rows that meet the first `n` predicates.
pub open spec fn mask_of(cols: Seq<ColumnView>, preds: Seq<ColumnPredicate>, n: int) -> Seq<bool> {
    Seq::new(
        table_rows(cols),
        |i: int| forall|k: int| 0 <= k < n ==> row_meets(cols, #[trigger] preds[k], i),
    )
}

fn find_column(cols: &Vec<PondColumn>, name: &str) -> (r: Option<usize>)
    ensures
        match r {
            Some(k) => k < cols@.len() && column_named(column_views(cols@), name@) == Some(cols@[k as int]@),
            None => column_named(column_views(cols@), name@) is None,
        },
{
    let ghost all = column_views(cols@);
    let mut i: usize = 0;
    proof {
        assert(all.take(0) =~= Seq::<ColumnView>::empty());
    }
    let mut found: Option<usize> = None;
    while i < cols.len()
        invariant
            i <= cols@.len(),
            all == column_views(cols@),
            match found {
                Some(k) => k < cols@.len() && column_named(all.take(i as int), name@) == Some(cols@[k as int]@),
                None => column_named(all.take(i as int), name@) is None,
            },
        decreases cols@.len() - i,
    {
        proof {
            assert(all.take(i as int + 1).drop_last() =~= all.take(i as int));
            assert(all.take(i as int + 1).last() == cols@[i as int]@);
        }
        if found.is_none() {
            let text = text_from_bytes(&cols[i].name);
            if same_text(&text, name) {
                found = Some(i);
            }
        }
        i = i + 1;
    }
    proof {
        assert(all.take(i as int) =~= all);
    }
    found
}

fn test_cell(col: &PondColumn, op: &str, target: &Target, i: usize) -> (r: bool)
    ensures
        r == cell_meets(col@, op@, *target, i as int),
{
    if col.vtype == VT_INT64 {
        let cell: i64 = if i < col.i64_data.len() {
            col.i64_data[i]
        } else {
            0
        };
        let value: i64 = match target.int {
            Some(v) => v,
            None => 0,
        };
        apply_op_i64(cell, op, value)
    } else if col.vtype == VT_FLOAT64 {
        let cell: u64 = if i < col.f64_data.len() {
            col.f64_data[i]
        } else {
            0
        };
        let value: u64 = match target.float {
            Some(v) => v,
            None => 0,
        };
        apply_op_f64(cell, op, value)
    } else {
        true
    }
}

/// Marks the rows that meet all predicates.
pub fn compute_predicate_mask(columns: &Vec<PondColumn>, predicates: &Vec<ColumnPredicate>) -> (r: Vec<bool>)
    ensures
        r@ == mask_of(column_views(columns@), predicates@, predicates@.len() as int),
{
    let ghost cols = column_views(columns@);
    let n_rows: usize = if columns.len() == 0 {
        0
    } else {
        columns[0].n_values
    };
    let mut mask: Vec<bool> = Vec::new();
    let mut i: usize = 0;
    while i < n_rows
        invariant
            i <= n_rows,
            mask@.len() == i,
            forall|k: int| 0 <= k < i ==> #[trigger] mask@[k],
        decreases n_rows - i,
    {
        mask.push(true);
        i = i + 1;
    }
    let mut p: usize = 0;
    proof {
        assert(mask@ =~= mask_of(cols, predicates@, 0));
    }
    while p < predicates.len()
        invariant
            p <= predicates@.len(),
            cols == column_views(columns@),
            n_rows == table_rows(cols),
            mask@ == mask_of(cols, predicates@, p as int),
        decreases predicates@.len() - p,
    {
        let ghost before = mask@;
        let pred = &predicates[p];
        match find_column(columns, &pred.column) {
            Some(c) => {
                let mut i: usize = 0;
                while i < n_rows
                    invariant
                        i <= n_rows,
                        p < predicates@.len(),
                        cols == column_views(columns@),
                        n_rows == table_rows(cols),
                        before == mask_of(cols, predicates@, p as int),
                        mask@.len() == n_rows,
                        c < columns@.len(),
                        *pred == predicates@[p as int],
                        column_named(cols, pred.column@) == Some(columns@[c as int]@),
                        forall|k: int|
                            0 <= k < i ==> #[trigger] mask@[k] == (before[k] && row_meets(cols, *pred, k)),
                        forall|k: int| i <= k < n_rows ==> #[trigger] mask@[k] == before[k],
                    decreases n_rows - i,
                {
                    if mask[i] {
                        let holds = test_cell(&columns[c], &pred.op, &pred.target, i);
                        mask[i] = holds;
                    }
                    i = i + 1;
                }
            },
            None => {},
        }
        proof {
            let after = mask_of(cols, predicates@, p as int + 1);
            assert forall|k: int| 0 <= k < n_rows implies mask@[k] == #[trigger] after[k] by {
                assert(mask@[k] == (before[k] && row_meets(cols, predicates@[p as int], k)));
                if before[k] && row_meets(cols, predicates@[p as int], k) {
                    assert forall|q: int| 0 <= q < p + 1 implies row_meets(cols, #[trigger] predicates@[q], k) by {
                        if q < p {
                            assert(row_meets(cols, predicates@[q], k));
                        }
                    }
                } else if after[k] {
                    assert(row_meets(cols, predicates@[p as int], k));
                    assert(before[k]);
                }
            }
            assert(mask@ =~= after);
        }
        p = p + 1;
    }
    mask
}

/// The values of a column in a table.
#[derive(Debug, PartialEq)]
pub enum Cells {
    Ints(Vec<i64>),
    Floats(Vec<u64>),
    Texts(Vec<String>),
    Bytes(Vec<Vec<u8>>),
    /// So many values of a type without a plain form.
    Nulls(usize),
}

pub enum CellsView {
    Ints(Seq<i64>),
    Floats(Seq<u64>),
    Texts(Seq<Seq<char>>),
    Bytes(Seq<Seq<u8>>),
    Nulls(nat),
}

impl View for Cells {
    type V = CellsView;

    open spec fn view(&self) -> CellsView {
        match self {
            Cells::Ints(v) => CellsView::Ints(v@),
            Cells::Floats(v) => CellsView::Floats(v@),
            Cells::Texts(v) => CellsView::Texts(text_views(v@)),
            Cells::Bytes(v) => CellsView::Bytes(byte_views(v@)),
            Cells::Nulls(n) => CellsView::Nulls(*n as nat),
        }
    }
}

/// The texts that byte strings stand for.
pub open spec fn shown_texts(strs: Seq<Seq<u8>>) -> Seq<Seq<char>> {
    Seq::new(strs.len(), |i: int| shown_text(strs[i]))
}

/// How many of the first `n` rows a mask keeps.
pub open spec fn marked(mask: Seq<bool>, n: nat) -> nat
    decreases n,
{
    if n == 0 {
        0
    } else {
        marked(mask, (n - 1) as nat) + if n <= mask.len() && mask[n - 1] {
            1nat
        } else {
            0nat
        }
    }
}

/// The values of a column that a mask keeps.
pub open spec fn cells_of(col: ColumnView, mask: Seq<bool>) -> CellsView {
    if col.vtype == VT_INT64 {
        CellsView::Ints(masked(col.ints, mask))
    } else if col.vtype == VT_FLOAT64 {
        CellsView::Floats(masked(col.floats, mask))
    } else if col.vtype == VT_STRING {
        CellsView::Texts(masked(shown_texts(col.strs), mask))
    } else if col.vtype == VT_BINARY {
        CellsView::Bytes(masked(col.bins, mask))
    } else {
        CellsView::Nulls(marked(mask, col.n))
    }
}

fn kept_words<T: Copy>(v: &Vec<T>, mask: &[bool]) -> (r: Vec<T>)
    ensures
        r@ == masked(v@, mask@),
{
    let mut out: Vec<T> = Vec::new();
    let mut i: usize = 0;
    proof {
        assert(v@.take(0) =~= Seq::<T>::empty());
    }
    while i < v.len()
        invariant
            i <= v@.len(),
            out@ == masked(v@.take(i as int), mask@),
        decreases v@.len() - i,
    {
        proof {
            assert(v@.take(i as int + 1).drop_last() =~= v@.take(i as int));
            assert(v@.take(i as int + 1).last() == v@[i as int]);
        }
        if i < mask.len() && mask[i] {
            out.push(v[i]);
        }
        i = i + 1;
    }
    proof {
        assert(v@.take(i as int) =~= v@);
    }
    out
}

fn kept_texts(v: &Vec<Vec<u8>>, mask: &[bool]) -> (r: Vec<String>)
    ensures
        text_views(r@) == masked(shown_texts(byte_views(v@)), mask@),
{
    let ghost all = shown_texts(byte_views(v@));
    let mut out: Vec<String> = Vec::new();
    let mut i: usize = 0;
    proof {
        assert(all.take(0) =~= Seq::<Seq<char>>::empty());
        assert(text_views(out@) =~= Seq::<Seq<char>>::empty());
    }
    while i < v.len()
        invariant
            i <= v@.len(),
            all == shown_texts(byte_views(v@)),
            text_views(out@) == masked(all.take(i as int), mask@),
        decreases v@.len() - i,
    {
        let ghost before = text_views(out@);
        proof {
            assert(all.take(i as int + 1).drop_last() =~= all.take(i as int));
            assert(all.take(i as int + 1).last() == all[i as int]);
        }
        if i < mask.len() && mask[i] {
            let t = text_from_bytes(&v[i]);
            let ghost tv = t@;
            out.push(t);
            proof {
                assert(text_views(out@) =~= before.push(tv));
            }
        }
        i = i + 1;
    }
    proof {
        assert(all.take(i as int) =~= all);
    }
    out
}

fn kept_bytes(v: &Vec<Vec<u8>>, mask: &[bool]) -> (r: Vec<Vec<u8>>)
    ensures
        byte_views(r@) == masked(byte_views(v@), mask@),
{
    let ghost all = byte_views(v@);
    let mut out: Vec<Vec<u8>> = Vec::new();
    let mut i: usize = 0;
    proof {
        assert(all.take(0) =~= Seq::<Seq<u8>>::empty());
        assert(byte_views(out@) =~= Seq::<Seq<u8>>::empty());
    }
    while i < v.len()
        invariant
            i <= v@.len(),
            all == byte_views(v@),
            byte_views(out@) == masked(all.take(i as int), mask@),
        decreases v@.len() - i,
    {
        let ghost before = byte_views(out@);
        proof {
            assert(all.take(i as int + 1).drop_last() =~= all.take(i as int));
            assert(all.take(i as int + 1).last() == all[i as int]);
        }
        if i < mask.len() && mask[i] {
            let b = copy_bytes(&v[i]);
            let ghost bv = b@;
            out.push(b);
            proof {
                assert(byte_views(out@) =~= before.push(bv));
            }
        }
        i = i + 1;
    }
    proof {
        assert(all.take(i as int) =~= all);
    }
    out
}

fn count_marked(mask: &[bool], n: usize) -> (r: usize)
    ensures
        r == marked(mask@, n as nat),
{
    let mut count: usize = 0;
    let mut i: usize = 0;
    while i < n
        invariant
            i <= n,
            count <= i,
            count == marked(mask@, i as nat),
        decreases n - i,
    {
        if i < mask.len() && mask[i] {
            count = count + 1;
        }
        i = i + 1;
    }
    count
}

/// Takes the values of a column that a mask keeps.
pub fn column_values_filtered(col: &PondColumn, mask: &[bool]) -> (r: Cells)
    ensures
        r@ == cells_of(col@, mask@),
{
    if col.vtype == VT_INT64 {
        Cells::Ints(kept_words(&col.i64_data, mask))
    } else if col.vtype == VT_FLOAT64 {
        Cells::Floats(kept_words(&col.f64_data, mask))
    } else if col.vtype == VT_STRING {
        Cells::Texts(kept_texts(&col.str_data, mask))
    } else if col.vtype == VT_BINARY {
        Cells::Bytes(kept_bytes(&col.bin_data, mask))
    } else {
        Cells::Nulls(count_marked(mask, col.n_values))
    }
}

/// A table: its columns by name, the number of its rows, and the number of the
/// columns of the blob.
#[derive(Debug, PartialEq)]
pub struct Table {
    pub columns: Vec<(String, Cells)>,
    pub n_rows: usize,
    pub n_columns: usize,
}

pub open spec fn table_views(v: Seq<(String, Cells)>) -> Seq<(Seq<char>, CellsView)> {
    Seq::new(v.len(), |i: int| (v[i].0@, v[i].1@))
}

/// The names under which a table tells its numbers of rows and of columns. No
/// column is found under them.
pub open spec fn is_reserved(name: Seq<char>) -> bool {
    name == "_n_rows"@ || name == "_n_columns"@
}

/// The columns with one more; it takes the place of one of the same name.
pub open spec fn with_column(cols: Seq<(Seq<char>, CellsView)>, name: Seq<char>, cells: CellsView) -> Seq<
    (Seq<char>, CellsView),
>
    decreases cols.len(),
{
    if cols.len() == 0 {
        seq![(name, cells)]
    } else if cols[0].0 == name {
        seq![(name, cells)] + cols.drop_first()
    } else {
        seq![cols[0]] + with_column(cols.drop_first(), name, cells)
    }
}

/// The columns that a projection names, all without one: of columns of one name
/// the last.
pub open spec fn table_columns(cols: Seq<ColumnView>, projection: Option<Seq<Seq<char>>>, mask: Seq<bool>) -> Seq<
    (Seq<char>, CellsView),
>
    decreases cols.len(),
{
    if cols.len() == 0 {
        Seq::empty()
    } else {
        let prev = table_columns(cols.drop_last(), projection, mask);
        let name = shown_text(cols.last().name);
        if !is_reserved(name) && (projection is None || projection->0.contains(name)) {
            with_column(prev, name, cells_of(cols.last(), mask))
        } else {
            prev
        }
    }
}

pub open spec fn is_table(
    t: Table,
    cols: Seq<ColumnView>,
    projection: Option<Seq<Seq<char>>>,
    preds: Seq<ColumnPredicate>,
) -> bool {
    let mask = mask_of(cols, preds, preds.len() as int);
    &&& table_views(t.columns@) == table_columns(cols, projection, mask)
    &&& t.n_rows == marked(mask, mask.len())
    &&& t.n_columns == cols.len()
}

/// Reads a blob into a table: the columns asked for, in the rows that meet the
/// predicates. There is none where the blob cannot be decoded.
pub fn decode(blob: &[u8], columns: Option<&Vec<String>>, predicates: &Vec<ColumnPredicate>) -> (r: Option<Table>)
    ensures
        match (r, decoded(blob@, None)) {
            (Some(t), Ok(cols)) => is_table(t, cols, opt_texts(columns), predicates@),
            (None, Err(_)) => true,
            _ => false,
        },
{
    match pnd2_decode(blob) {
        Ok(cols) => Some(make_table(&cols, columns, predicates)),
        Err(_) => None,
    }
}

proof fn lemma_with_column(cols: Seq<(Seq<char>, CellsView)>, name: Seq<char>, cells: CellsView, j: int)
    requires
        0 <= j <= cols.len(),
        forall|k: int| 0 <= k < j ==> (#[trigger] cols[k]).0 != name,
        j < cols.len() ==> cols[j].0 == name,
    ensures
        with_column(cols, name, cells) == (if j < cols.len() {
            cols.update(j, (name, cells))
        } else {
            cols.push((name, cells))
        }),
    decreases cols.len(),
{
    let r = with_column(cols, name, cells);
    if cols.len() == 0 {
        assert(r =~= cols.push((name, cells)));
    } else if j == 0 {
        assert(r =~= cols.update(0, (name, cells)));
    } else {
        let rest = cols.drop_first();
        assert(cols[0].0 != name);
        assert forall|k: int| 0 <= k < j - 1 implies (#[trigger] rest[k]).0 != name by {
            assert(rest[k] == cols[k + 1]);
        }
        lemma_with_column(rest, name, cells, j - 1);
        if j < cols.len() {
            assert(r =~= cols.update(j, (name, cells)));
        } else {
            assert(r =~= cols.push((name, cells)));
        }
    }
}

/// Adds a column, in the place of one of the same name.
fn put_column(out: &mut Vec<(String, Cells)>, name: String, cells: Cells)
    ensures
        table_views(final(out)@) == with_column(table_views(old(out)@), name@, cells@),
{
    let ghost before = table_views(out@);
    let ghost entry = (name@, cells@);
    let mut j: usize = 0;
    while j < out.len() && !same_text(&out[j].0, &name)
        invariant
            j <= out@.len(),
            before == table_views(out@),
            forall|k: int| 0 <= k < j ==> (#[trigger] before[k]).0 != name@,
        ensures
            j <= out@.len(),
            before == table_views(out@),
            forall|k: int| 0 <= k < j ==> (#[trigger] before[k]).0 != name@,
            j < out@.len() ==> before[j as int].0 == name@,
        decreases out@.len() - j,
    {
        j = j + 1;
    }
    proof {
        lemma_with_column(before, name@, cells@, j as int);
    }
    if j < out.len() {
        out.set(j, (name, cells));
        proof {
            assert(table_views(out@) =~= before.update(j as int, entry));
        }
    } else {
        out.push((name, cells));
        proof {
            assert(table_views(out@) =~= before.push(entry));
        }
    }
}

/// Makes a table of decoded columns.
pub fn make_table(cols: &Vec<PondColumn>, columns: Option<&Vec<String>>, predicates: &Vec<ColumnPredicate>) -> (r:
    Table)
    ensures
        is_table(r, column_views(cols@), opt_texts(columns), predicates@),
{
    let ghost all = column_views(cols@);
    let ghost projection = opt_texts(columns);
    let mask = compute_predicate_mask(cols, predicates);
    let mut out: Vec<(String, Cells)> = Vec::new();
    let mut i: usize = 0;
    proof {
        assert(all.take(0) =~= Seq::<ColumnView>::empty());
        assert(table_views(out@) =~= Seq::<(Seq<char>, CellsView)>::empty());
    }
    while i < cols.len()
        invariant
            i <= cols@.len(),
            all == column_views(cols@),
            projection == opt_texts(columns),
            table_views(out@) == table_columns(all.take(i as int), projection, mask@),
        decreases cols@.len() - i,
    {
        proof {
            assert(all.take(i as int + 1).drop_last() =~= all.take(i as int));
            assert(all.take(i as int + 1).last() == cols@[i as int]@);
        }
        let name = text_from_bytes(&cols[i].name);
        let wanted: bool = match columns {
            Some(names) => holds_text(names, &name),
            None => true,
        };
        if wanted && !same_text(&name, "_n_rows") && !same_text(&name, "_n_columns") {
            let cells = column_values_filtered(&cols[i], &mask);
            put_column(&mut out, name, cells);
        }
        i = i + 1;
    }
    proof {
        assert(all.take(i as int) =~= all);
    }
    let n_rows = count_marked(&mask, mask.len());
    Table { columns: out, n_rows, n_columns: cols.len() }
}

/// Without predicates every row is kept.
pub proof fn no_predicate_keeps_all(cols: Seq<ColumnView>, preds: Seq<ColumnPredicate>)
    requires
        preds.len() == 0,
    ensures
        marked(mask_of(cols, preds, 0), table_rows(cols)) == table_rows(cols),
{
    let mask = mask_of(cols, preds, 0);
    lemma_all_marked(mask, table_rows(cols));
}

proof fn lemma_all_marked(mask: Seq<bool>, n: nat)
    requires
        n <= mask.len(),
        forall|i: int| 0 <= i < n ==> #[trigger] mask[i],
    ensures
        marked(mask, n) == n,
    decreases n,
{
    if n > 0 {
        lemma_all_marked(mask, (n - 1) as nat);
        assert(mask[n - 1]);
    }
}

/// Another predicate never lets a row back in.
pub proof fn predicates_only_narrow(cols: Seq<ColumnView>, preds: Seq<ColumnPredicate>, n: int, i: int)
    requires
        0 <= n < preds.len(),
        0 <= i < table_rows(cols),
    ensures
        mask_of(cols, preds, n + 1)[i] == (mask_of(cols, preds, n)[i] && row_meets(cols, preds[n], i)),
{
    let before = mask_of(cols, preds, n)[i];
    let after = mask_of(cols, preds, n + 1)[i];
    if before && row_meets(cols, preds[n], i) {
        assert forall|k: int| 0 <= k < n + 1 implies row_meets(cols, #[trigger] preds[k], i) by {
            if k < n {
                assert(row_meets(cols, preds[k], i));
            }
        }
    }
    if after {
        assert(row_meets(cols, preds[n], i));
    }
}

/// The values of a column to encode.
pub enum Values {
    Ints(Vec<i64>),
    Floats(Vec<u64>),
    Texts(Vec<String>),
    /// Values that this encoder does not take.
    Other,
}

/// The least and greatest value of a column.
#[derive(Debug, PartialEq)]
pub enum Bounds {
    Ints(i64, i64),
    Floats(u64, u64),
    Absent,
}

/// What is known of an encoded column.
#[derive(Debug, PartialEq)]
pub struct ColumnStats {
    pub name: String,
    pub vtype: u8,
    pub bounds: Bounds,
    pub null_count: u32,
}

/// Whether a column can be encoded: its name fits and it has a value of a known
/// type for each row.
pub open spec fn encodable(name: Seq<char>, v: Values, n_rows: nat) -> bool {
    encode_utf8(name).len() <= 255 && match v {
        Values::Ints(x) => x@.len() == n_rows,
        Values::Floats(x) => x@.len() == n_rows,
        Values::Texts(x) => x@.len() == n_rows,
        Values::Other => false,
    }
}

pub open spec fn value_part(name: Seq<char>, v: Values) -> Part {
    match v {
        Values::Ints(x) => raw_ints_part(encode_utf8(name), x@),
        Values::Floats(x) => raw_floats_part(encode_utf8(name), x@),
        Values::Texts(x) => raw_strs_part(encode_utf8(name), text_bytes(x@)),
        Values::Other => raw_strs_part(encode_utf8(name), Seq::empty()),
    }
}

pub open spec fn value_parts(columns: Seq<(String, Values)>) -> Seq<Part> {
    Seq::new(columns.len(), |i: int| value_part(columns[i].0@, columns[i].1))
}

pub open spec fn are_stats(s: ColumnStats, name: Seq<char>, v: Values) -> bool {
    &&& s.name@ == name
    &&& s.null_count == 0
    &&& match v {
        Values::Ints(x) => s.vtype == VT_INT64 && s.bounds == Bounds::Ints(least(x@), greatest(x@)),
        Values::Floats(x) => s.vtype == VT_FLOAT64 && s.bounds == Bounds::Floats(
            f64_least(x@),
            f64_greatest(x@),
        ),
        _ => s.vtype == VT_STRING && s.bounds == Bounds::Absent,
    }
}

/// Whether all columns can be encoded.
pub open spec fn all_encodable(columns: Seq<(String, Values)>, n_rows: nat) -> bool {
    columns.len() > 0 && n_rows > 0 && forall|i: int|
        0 <= i < columns.len() ==> encodable((#[trigger] columns[i]).0@, columns[i].1, n_rows)
}

fn texts_column(name: Vec<u8>, texts: &Vec<String>) -> (r: EncodedColumn)
    ensures
        r@ == raw_strs_part(name@, text_bytes(texts@)),
{
    let mut strs: Vec<&str> = Vec::new();
    let mut i: usize = 0;
    while i < texts.len()
        invariant
            i <= texts@.len(),
            strs@.len() == i,
            forall|k: int| 0 <= k < i ==> (#[trigger] strs@[k])@ == texts@[k]@,
        decreases texts@.len() - i,
    {
        strs.push(texts[i].as_str());
        i = i + 1;
    }
    proof {
        assert(str_bytes(strs@) =~= text_bytes(texts@));
    }
    raw_strs_column(name, &strs)
}

/// Encodes columns of `n_rows` values into a blob, RAW, and tells the bounds of
/// each. There is none where there is nothing to encode or some column cannot
/// be.
pub fn encode(columns: &Vec<(String, Values)>, n_rows: usize) -> (r: Option<(Vec<u8>, Vec<ColumnStats>)>)
    ensures
        match r {
            Some((blob, stats)) => {
                &&& all_encodable(columns@, n_rows as nat)
                &&& blob@ == blob_bytes(n_rows as nat, value_parts(columns@))
                &&& stats@.len() == columns@.len()
                &&& forall|i: int|
                    0 <= i < columns@.len() ==> are_stats(
                        #[trigger] stats@[i],
                        columns@[i].0@,
                        columns@[i].1,
                    )
            },
            None => !all_encodable(columns@, n_rows as nat),
        },
{
    if columns.len() == 0 || n_rows == 0 {
        return None;
    }
    let mut parts: Vec<EncodedColumn> = Vec::new();
    let mut stats: Vec<ColumnStats> = Vec::new();
    let mut i: usize = 0;
    while i < columns.len()
        invariant
            i <= columns@.len(),
            parts@.len() == i,
            stats@.len() == i,
            n_rows > 0,
            forall|k: int|
                0 <= k < i ==> encodable((#[trigger] columns@[k]).0@, columns@[k].1, n_rows as nat),
            forall|k: int|
                0 <= k < i ==> (#[trigger] parts@[k])@ == value_part(columns@[k].0@, columns@[k].1),
            forall|k: int|
                0 <= k < i ==> are_stats(#[trigger] stats@[k], columns@[k].0@, columns@[k].1),
        decreases columns@.len() - i,
    {
        let name = &columns[i].0;
        let name_bytes = copy_bytes(name.as_str().as_bytes());
        if name_bytes.len() > 255 {
            assert(!encodable(columns@[i as int].0@, columns@[i as int].1, n_rows as nat));
            return None;
        }
        match &columns[i].1 {
            Values::Ints(v) => {
                if v.len() != n_rows {
                    assert(!encodable(columns@[i as int].0@, columns@[i as int].1, n_rows as nat));
                    return None;
                }
                let (lo, hi) = min_max(v);
                parts.push(raw_ints_column(name_bytes, v));
                stats.push(
                    ColumnStats {
                        name: copy_text(name),
                        vtype: VT_INT64,
                        bounds: Bounds::Ints(lo, hi),
                        null_count: 0,
                    },
                );
            },
            Values::Floats(v) => {
                if v.len() != n_rows {
                    assert(!encodable(columns@[i as int].0@, columns@[i as int].1, n_rows as nat));
                    return None;
                }
                let (lo, hi) = f64_min_max(v);
                parts.push(raw_floats_column(name_bytes, v));
                stats.push(
                    ColumnStats {
                        name: copy_text(name),
                        vtype: VT_FLOAT64,
                        bounds: Bounds::Floats(lo, hi),
                        null_count: 0,
                    },
                );
            },
            Values::Texts(v) => {
                if v.len() != n_rows {
                    assert(!encodable(columns@[i as int].0@, columns@[i as int].1, n_rows as nat));
                    return None;
                }
                parts.push(texts_column(name_bytes, v));
                stats.push(
                    ColumnStats {
                        name: copy_text(name),
                        vtype: VT_STRING,
                        bounds: Bounds::Absent,
                        null_count: 0,
                    },
                );
            },
            Values::Other => {
                assert(!encodable(columns@[i as int].0@, columns@[i as int].1, n_rows as nat));
                return None;
            },
        }
        i = i + 1;
    }
    let blob = assemble(&parts, n_rows);
    proof {
        assert(part_views(parts@) =~= value_parts(columns@));
    }
    Some((blob, stats))
}

/// The column that values stand for.
pub open spec fn value_column(name: Seq<char>, v: Values) -> ColumnView {
    named(
        encode_utf8(name),
        match v {
            Values::Ints(x) => ints_column(VT_INT64, x@),
            Values::Floats(x) => floats_column(VT_FLOAT64, x@),
            Values::Texts(x) => strs_column(VT_STRING, text_bytes(x@)),
            Values::Other => strs_column(VT_STRING, Seq::empty()),
        },
    )
}

proof fn lemma_value_reads_back(name: Seq<char>, v: Values, n_rows: nat)
    requires
        encodable(name, v, n_rows),
        value_part(name, v).payload.len() <= 0xFFFF_FFFF,
    ensures
        part_ok(value_part(name, v)),
        part_column(value_part(name, v), n_rows) == value_column(name, v),
{
    let bytes = encode_utf8(name);
    match v {
        Values::Ints(x) => {
            lemma_word_parts_len(to_words(x@));
            ints_part_round_trip(bytes, x@);
        },
        Values::Floats(x) => {
            lemma_word_parts_len(x@);
            floats_part_round_trip(bytes, x@);
        },
        Values::Texts(x) => {
            strs_part_round_trip(bytes, text_bytes(x@));
        },
        Values::Other => {},
    }
}

/// Decoding what `encode` made gives back the columns: each under its name, with
/// its values, in order.
pub proof fn encoded_columns_read_back(columns: Seq<(String, Values)>, n_rows: nat)
    requires
        all_encodable(columns, n_rows),
        n_rows <= 0xFFFF_FFFF,
        columns.len() <= 0xFFFF,
        forall|i: int|
            0 <= i < columns.len() ==> (#[trigger] value_parts(columns)[i]).payload.len() <= 0xFFFF_FFFF,
    ensures
        decoded(blob_bytes(n_rows, value_parts(columns)), None) == Ok::<Seq<ColumnView>, DecodeErrorView>(
            Seq::new(columns.len(), |i: int| value_column(columns[i].0@, columns[i].1)),
        ),
{
    let parts = value_parts(columns);
    let cols = Seq::new(columns.len(), |i: int| value_column(columns[i].0@, columns[i].1));
    assert forall|i: int| 0 <= i < parts.len() implies part_ok(#[trigger] parts[i]) && part_column(
        parts[i],
        n_rows,
    ) == cols[i] by {
        lemma_value_reads_back(columns[i].0@, columns[i].1, n_rows);
    }
    blob_round_trip(n_rows, parts, None);
    assert(part_columns(n_rows, parts) =~= cols) by {
        assert forall|i: int| 0 <= i < cols.len() implies part_columns(n_rows, parts)[i] == cols[i] by {
            assert(part_column(parts[i], n_rows) == cols[i]);
        }
    }
    lemma_filter_all(cols, |c: ColumnView| wanted(None, c.name));
}

} // verus!
