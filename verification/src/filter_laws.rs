//! What filters over columns keep, and what patterns match.

use vstd::prelude::*;
use vstd::string::*;
use crate::constants::{VT_BINARY, VT_FLOAT64, VT_INT64, VT_STRING};
use crate::float::{f64_below, f64_same};
use crate::infer::masked;
use crate::order_laws::lemma_op_names;
use crate::predicate::{bounds_exclude, float_holds, int_holds, ints_marked, like, op_of, Op};
use crate::rows::shown_text;
use crate::table::{cell_meets, cells_of, column_named, is_table, marked, mask_of, table_columns, table_views,
    with_column, CellsView, ColumnPredicate, Table, Target};
use crate::tally::how_many;
use crate::types::ColumnView;

verus! {

/// The comparisons of whole numbers, each by its sign, mean what the sign means.
pub proof fn int_comparisons_mean_their_signs(a: int, b: int)
    ensures
        int_holds(op_of("="@), a, b) <==> a == b,
        int_holds(op_of("=="@), a, b) <==> a == b,
        int_holds(op_of("!="@), a, b) <==> a != b,
        int_holds(op_of("<>"@), a, b) <==> a != b,
        int_holds(op_of("<"@), a, b) <==> a < b,
        int_holds(op_of("<="@), a, b) <==> a <= b,
        int_holds(op_of(">"@), a, b) <==> a > b,
        int_holds(op_of(">="@), a, b) <==> a >= b,
{
    lemma_op_names();
}

/// The comparisons of floats, each by its sign, mean what the sign means.
pub proof fn float_comparisons_mean_their_signs(a: u64, b: u64)
    ensures
        float_holds(op_of("="@), a, b) <==> f64_same(a, b),
        float_holds(op_of("=="@), a, b) <==> f64_same(a, b),
        float_holds(op_of("!="@), a, b) <==> !f64_same(a, b),
        float_holds(op_of("<>"@), a, b) <==> !f64_same(a, b),
        float_holds(op_of("<"@), a, b) <==> f64_below(a, b),
        float_holds(op_of("<="@), a, b) <==> f64_below(a, b) || f64_same(a, b),
        float_holds(op_of(">"@), a, b) <==> f64_below(b, a),
        float_holds(op_of(">="@), a, b) <==> f64_below(b, a) || f64_same(a, b),
{
    lemma_op_names();
}

/// A sign that is none of the comparisons is not known.
pub proof fn other_signs_are_unknown(op: Seq<char>)
    requires
        op != "="@ && op != "=="@ && op != "!="@ && op != "<>"@ && op != "<"@ && op != "<="@ && op != ">"@ && op
            != ">="@,
    ensures
        op_of(op) == Op::Unknown,
{
}

/// A filter over whole numbers marks each number, and just those for which the
/// comparison with the value holds.
pub proof fn marks_are_of_the_numbers(data: Seq<i64>, value: i64, i: int)
    requires
        0 <= i < data.len(),
    ensures
        ints_marked(op_of("="@), data, value).len() == data.len(),
        ints_marked(op_of("="@), data, value)[i] <==> data[i] == value,
        ints_marked(op_of("!="@), data, value)[i] <==> data[i] != value,
        ints_marked(op_of("<"@), data, value)[i] <==> data[i] < value,
        ints_marked(op_of("<="@), data, value)[i] <==> data[i] <= value,
        ints_marked(op_of(">"@), data, value)[i] <==> data[i] > value,
        ints_marked(op_of(">="@), data, value)[i] <==> data[i] >= value,
{
    lemma_op_names();
}

/// A number lies between bounds.
pub open spec fn within(lo: int, hi: int, x: int) -> bool {
    lo <= x <= hi
}

/// A group of rows is passed over just where no value between its bounds can meet the
/// comparison.
pub proof fn bounds_exclude_when_nothing_fits(lo: int, hi: int, value: int)
    requires
        lo <= hi,
    ensures
        bounds_exclude(op_of("="@), lo, hi, value) <==> !within(lo, hi, value),
        bounds_exclude(op_of("<"@), lo, hi, value) <==> forall|x: int| #[trigger] within(lo, hi, x) ==> x >= value,
        bounds_exclude(op_of("<="@), lo, hi, value) <==> forall|x: int| #[trigger] within(lo, hi, x) ==> x > value,
        bounds_exclude(op_of(">"@), lo, hi, value) <==> forall|x: int| #[trigger] within(lo, hi, x) ==> x <= value,
        bounds_exclude(op_of(">="@), lo, hi, value) <==> forall|x: int| #[trigger] within(lo, hi, x) ==> x < value,
        !bounds_exclude(op_of("!="@), lo, hi, value),
{
    lemma_op_names();
    assert(within(lo, hi, lo) && within(lo, hi, hi));
}

/// The values that a mask keeps: as many as it has marks, each in the place that the
/// marks before it give.
pub proof fn masked_values_are_the_marked<T>(s: Seq<T>, mask: Seq<bool>, i: int)
    requires
        0 <= i < s.len(),
    ensures
        masked(s, mask).len() == how_many(s.len(), |k: int| k < mask.len() && mask[k]),
        i < mask.len() && mask[i] ==> how_many(i as nat, |k: int| k < mask.len() && mask[k]) < masked(s, mask).len()
            && masked(s, mask)[how_many(i as nat, |k: int| k < mask.len() && mask[k]) as int] == s[i],
    decreases s.len(),
{
    let p = |k: int| k < mask.len() && mask[k];
    let t = s.drop_last();
    if t.len() > 0 {
        if i < t.len() {
            masked_values_are_the_marked(t, mask, i);
            assert(t[i] == s[i]);
        } else {
            masked_values_are_the_marked(t, mask, 0);
        }
    } else {
        assert(masked(t, mask) =~= Seq::<T>::empty());
        assert(how_many(0, p) == 0);
    }
    assert(how_many(s.len(), p) == how_many(t.len(), p) + if p(s.len() - 1) {
        1nat
    } else {
        0nat
    });
}

/// The number of marks.
pub proof fn marks_are_counted(mask: Seq<bool>, n: nat)
    ensures
        marked(mask, n) == how_many(n, |k: int| k < mask.len() && mask[k]),
    decreases n,
{
    if n > 0 {
        marks_are_counted(mask, (n - 1) as nat);
    }
}

proof fn lemma_like_parts(t: Seq<char>, a: Seq<char>, b: Seq<char>)
    ensures
        like(t, a + b) <==> exists|k: int| 0 <= k <= t.len() && like(t.take(k), a) && #[trigger] like(t.skip(k), b),
    decreases a.len(), t.len(),
{
    if a.len() == 0 {
        assert(a + b =~= b);
        assert(t.skip(0) =~= t);
        assert(t.take(0) =~= Seq::<char>::empty());
        if like(t, b) {
            assert(like(t.take(0), a) && like(t.skip(0), b));
        }
        if exists|k: int| 0 <= k <= t.len() && like(t.take(k), a) && #[trigger] like(t.skip(k), b) {
            let k = choose|k: int| 0 <= k <= t.len() && like(t.take(k), a) && #[trigger] like(t.skip(k), b);
            assert(t.take(k).len() == 0);
            assert(k == 0);
        }
    } else {
        let whole = a + b;
        let rest = a.drop_first();
        assert(whole.drop_first() =~= rest + b);
        assert(whole[0] == a[0]);
        if a[0] == '%' {
            lemma_like_parts(t, rest, b);
            if t.len() > 0 {
                lemma_like_parts(t.drop_first(), a, b);
            }
            if like(t, whole) {
                if like(t, rest + b) {
                    let k = choose|k: int|
                        0 <= k <= t.len() && like(t.take(k), rest) && #[trigger] like(t.skip(k), b);
                    assert(like(t.take(k), a));
                } else {
                    let u = t.drop_first();
                    let k = choose|k: int| 0 <= k <= u.len() && like(u.take(k), a) && #[trigger] like(u.skip(k), b);
                    assert(t.skip(k + 1) =~= u.skip(k));
                    assert(t.take(k + 1).drop_first() =~= u.take(k));
                    assert(like(t.take(k + 1), a));
                }
            }
            if exists|k: int| 0 <= k <= t.len() && like(t.take(k), a) && #[trigger] like(t.skip(k), b) {
                let k = choose|k: int| 0 <= k <= t.len() && like(t.take(k), a) && #[trigger] like(t.skip(k), b);
                if like(t.take(k), rest) {
                    assert(like(t, rest + b));
                } else {
                    assert(k > 0);
                    let u = t.drop_first();
                    assert(t.take(k).drop_first() =~= u.take(k - 1));
                    assert(t.skip(k) =~= u.skip(k - 1));
                    assert(like(u.take(k - 1), a) && like(u.skip(k - 1), b));
                    assert(like(u, a + b));
                }
            }
        } else {
            if t.len() > 0 {
                let u = t.drop_first();
                lemma_like_parts(u, rest, b);
                if like(t, whole) {
                    let k = choose|k: int|
                        0 <= k <= u.len() && like(u.take(k), rest) && #[trigger] like(u.skip(k), b);
                    assert(t.skip(k + 1) =~= u.skip(k));
                    assert(t.take(k + 1).drop_first() =~= u.take(k));
                    assert(t.take(k + 1)[0] == t[0]);
                    assert(like(t.take(k + 1), a));
                }
                if exists|k: int| 0 <= k <= t.len() && like(t.take(k), a) && #[trigger] like(t.skip(k), b) {
                    let k = choose|k: int|
                        0 <= k <= t.len() && like(t.take(k), a) && #[trigger] like(t.skip(k), b);
                    assert(k > 0);
                    assert(t.take(k)[0] == t[0]);
                    assert(t.take(k).drop_first() =~= u.take(k - 1));
                    assert(t.skip(k) =~= u.skip(k - 1));
                    assert(like(u.take(k - 1), rest) && like(u.skip(k - 1), b));
                }
            } else {
                if exists|k: int| 0 <= k <= t.len() && like(t.take(k), a) && #[trigger] like(t.skip(k), b) {
                    let k = choose|k: int|
                        0 <= k <= t.len() && like(t.take(k), a) && #[trigger] like(t.skip(k), b);
                    assert(t.take(k).len() == 0);
                }
            }
        }
    }
}

/// A text matches two patterns in a row just where it can be cut so that each part
/// matches one of them. `%` matches any text, `_` any one character, any other
/// character itself, and no pattern only the empty text.
pub proof fn patterns_match_part_by_part(t: Seq<char>, a: Seq<char>, b: Seq<char>, c: char)
    ensures
        like(t, a + b) <==> exists|k: int| 0 <= k <= t.len() && like(t.take(k), a) && #[trigger] like(t.skip(k), b),
        like(t, Seq::empty()) <==> t.len() == 0,
        like(t, seq!['%']),
        like(t, seq!['_']) <==> t.len() == 1,
        c != '%' && c != '_' ==> (like(t, seq![c]) <==> t == seq![c]),
{
    lemma_like_parts(t, a, b);
    assert(seq!['_'].drop_first() =~= Seq::<char>::empty());
    assert(seq![c].drop_first() =~= Seq::<char>::empty());
    assert(seq!['%'].drop_first() =~= Seq::<char>::empty());
    lemma_percent(t);
    let none = Seq::<char>::empty();
    if t.len() > 0 {
        let u = t.drop_first();
        assert(like(u, none) <==> u.len() == 0);
        assert(like(t, seq!['_']) <==> like(u, none));
        if c != '%' && c != '_' {
            assert(like(t, seq![c]) <==> t[0] == c && like(u, none));
        }
    }
    if t.len() == 1 {
        assert(t =~= seq![t[0]]);
    }
}

proof fn lemma_percent(t: Seq<char>)
    ensures
        like(t, seq!['%']),
    decreases t.len(),
{
    assert(seq!['%'].drop_first() =~= Seq::<char>::empty());
    if t.len() > 0 {
        lemma_percent(t.drop_first());
        assert(like(t, seq!['%']));
    } else {
        assert(like(t, Seq::<char>::empty()));
    }
}

/// Column `d` is the first of a name.
pub open spec fn first_named(cols: Seq<ColumnView>, d: int, name: Seq<char>) -> bool {
    &&& 0 <= d < cols.len() && shown_text(cols[d].name) == name
    &&& forall|e: int| 0 <= e < d ==> shown_text((#[trigger] cols[e]).name) != name
}

proof fn lemma_column_named(cols: Seq<ColumnView>, name: Seq<char>)
    ensures
        match column_named(cols, name) {
            Some(c) => exists|d: int| #[trigger] first_named(cols, d, name) && cols[d] == c,
            None => forall|d: int| 0 <= d < cols.len() ==> shown_text((#[trigger] cols[d]).name) != name,
        },
    decreases cols.len(),
{
    if cols.len() > 0 {
        let t = cols.drop_last();
        lemma_column_named(t, name);
        match column_named(t, name) {
            Some(c) => {
                let d = choose|d: int| #[trigger] first_named(t, d, name) && t[d] == c;
                assert forall|e: int| 0 <= e < d implies shown_text((#[trigger] cols[e]).name) != name by {
                    assert(t[e] == cols[e]);
                }
                assert(first_named(cols, d, name) && cols[d] == c);
            },
            None => {
                let n = cols.len() - 1;
                assert forall|e: int| 0 <= e < n implies shown_text((#[trigger] cols[e]).name) != name by {
                    assert(t[e] == cols[e]);
                }
                if shown_text(cols[n].name) == name {
                    assert(first_named(cols, n, name) && cols[n] == cols.last());
                }
            },
        }
    }
}

proof fn lemma_first_named_once(cols: Seq<ColumnView>, name: Seq<char>, d: int, e: int)
    requires
        first_named(cols, d, name),
        first_named(cols, e, name),
    ensures
        d == e,
{
}

/// Reading a blob keeps a row just where it meets every predicate. On a column of
/// whole numbers or floats a predicate compares the cell with the target by the sign
/// of its operator.
pub proof fn rows_are_kept_by_comparison(cols: Seq<ColumnView>, p: ColumnPredicate, d: int, i: int, t: i64, x: u64)
    requires
        first_named(cols, d, p.column@),
        0 <= i < cols[0].n,
        i < cols[d].ints.len() || cols[d].vtype != VT_INT64,
        i < cols[d].floats.len() || cols[d].vtype != VT_FLOAT64,
        p.target.int == Some(t),
        p.target.float == Some(x),
    ensures
        ({
            let kept = mask_of(cols, seq![p], 1)[i];
            let op = p.op@;
            &&& cols[d].vtype == VT_INT64 ==> {
                let c = cols[d].ints[i];
                &&& op == "="@ || op == "=="@ ==> (kept <==> c == t)
                &&& op == "!="@ || op == "<>"@ ==> (kept <==> c != t)
                &&& op == ">"@ ==> (kept <==> c > t)
                &&& op == ">="@ ==> (kept <==> c >= t)
                &&& op == "<"@ ==> (kept <==> c < t)
                &&& op == "<="@ ==> (kept <==> c <= t)
            }
            &&& cols[d].vtype == VT_FLOAT64 ==> {
                let c = cols[d].floats[i];
                &&& op == "="@ || op == "=="@ ==> (kept <==> f64_same(c, x))
                &&& op == "!="@ || op == "<>"@ ==> (kept <==> !f64_same(c, x))
                &&& op == ">"@ ==> (kept <==> f64_below(x, c))
                &&& op == ">="@ ==> (kept <==> f64_below(x, c) || f64_same(x, c))
                &&& op == "<"@ ==> (kept <==> f64_below(c, x))
                &&& op == "<="@ ==> (kept <==> f64_below(c, x) || f64_same(c, x))
            }
            &&& cols[d].vtype != VT_INT64 && cols[d].vtype != VT_FLOAT64 ==> kept
        }),
{
    lemma_op_names();
    lemma_column_named(cols, p.column@);
    let e = choose|e: int| #[trigger] first_named(cols, e, p.column@) && Some(cols[e]) == column_named(cols, p.column@);
    lemma_first_named_once(cols, p.column@, d, e);
    let preds = seq![p];
    assert(preds[0] == p);
    assert(mask_of(cols, preds, 1)[i] == crate::table::row_meets(cols, p, i));
}

/// A predicate on a column that is not there keeps every row, and several predicates
/// keep what each of them keeps.
pub proof fn predicates_keep_what_each_keeps(cols: Seq<ColumnView>, preds: Seq<ColumnPredicate>, i: int)
    requires
        cols.len() > 0,
        0 <= i < cols[0].n,
    ensures
        mask_of(cols, preds, preds.len() as int).len() == cols[0].n,
        mask_of(cols, preds, preds.len() as int)[i] <==> forall|k: int|
            0 <= k < preds.len() ==> mask_of(cols, seq![#[trigger] preds[k]], 1)[i],
        forall|k: int|
            0 <= k < preds.len() && (forall|d: int|
                0 <= d < cols.len() ==> shown_text((#[trigger] cols[d]).name) != preds[k].column@) ==> mask_of(
                cols,
                seq![#[trigger] preds[k]],
                1,
            )[i],
{
    assert forall|k: int| 0 <= k < preds.len() implies mask_of(cols, seq![#[trigger] preds[k]], 1)[i]
        == crate::table::row_meets(cols, preds[k], i) by {
        let one = seq![preds[k]];
        assert(one[0] == preds[k]);
    }
    assert forall|k: int|
        0 <= k < preds.len() && (forall|d: int|
            0 <= d < cols.len() ==> shown_text((#[trigger] cols[d]).name) != preds[k].column@) implies mask_of(
        cols,
        seq![#[trigger] preds[k]],
        1,
    )[i] by {
        lemma_column_named(cols, preds[k].column@);
    }
}

/// Where a name stands among the columns of a table.
pub open spec fn column_place(cols: Seq<(Seq<char>, CellsView)>, name: Seq<char>, at: int, cells: CellsView) -> bool {
    0 <= at < cols.len() && cols[at] == (name, cells)
}

proof fn lemma_with_column_has(cols: Seq<(Seq<char>, CellsView)>, name: Seq<char>, cells: CellsView)
    ensures
        exists|at: int| #[trigger] column_place(with_column(cols, name, cells), name, at, cells),
        forall|other: Seq<char>, c: CellsView, at: int|
            other != name && #[trigger] column_place(cols, other, at, c) ==> column_place(
                with_column(cols, name, cells),
                other,
                at,
                c,
            ),
    decreases cols.len(),
{
    let r = with_column(cols, name, cells);
    if cols.len() == 0 {
        assert(column_place(r, name, 0, cells));
    } else if cols[0].0 == name {
        assert(column_place(r, name, 0, cells));
        assert forall|other: Seq<char>, c: CellsView, at: int|
            other != name && #[trigger] column_place(cols, other, at, c) implies column_place(r, other, at, c) by {
            assert(at > 0);
            assert(r[at] == cols.drop_first()[at - 1]);
        }
    } else {
        let rest = cols.drop_first();
        lemma_with_column_has(rest, name, cells);
        let at = choose|at: int| #[trigger] column_place(with_column(rest, name, cells), name, at, cells);
        assert(column_place(r, name, at + 1, cells));
        assert forall|other: Seq<char>, c: CellsView, at: int|
            other != name && #[trigger] column_place(cols, other, at, c) implies column_place(r, other, at, c) by {
            if at > 0 {
                assert(column_place(rest, other, at - 1, c));
                assert(column_place(with_column(rest, name, cells), other, at - 1, c));
            }
        }
    }
}

/// A table has each column of the blob that is asked for, under its name, with its
/// values in the rows that are kept.
pub proof fn tables_have_the_columns(
    t: Table,
    cols: Seq<ColumnView>,
    projection: Option<Seq<Seq<char>>>,
    preds: Seq<ColumnPredicate>,
    d: int,
)
    requires
        is_table(t, cols, projection, preds),
        0 <= d < cols.len(),
        forall|e: int| d < e < cols.len() ==> shown_text((#[trigger] cols[e]).name) != shown_text(cols[d].name),
        shown_text(cols[d].name) != "_n_rows"@,
        shown_text(cols[d].name) != "_n_columns"@,
        projection matches Some(names) ==> names.contains(shown_text(cols[d].name)),
    ensures
        t.n_columns == cols.len(),
        ({
            let mask = mask_of(cols, preds, preds.len() as int);
            let col = cols[d];
            let has = |cells: CellsView|
                exists|at: int| #[trigger] column_place(table_views(t.columns@), shown_text(col.name), at, cells);
            &&& t.n_rows == how_many(mask.len(), |k: int| k < mask.len() && mask[k])
            &&& col.vtype == VT_INT64 ==> has(CellsView::Ints(masked(col.ints, mask)))
            &&& col.vtype == VT_FLOAT64 ==> has(CellsView::Floats(masked(col.floats, mask)))
            &&& col.vtype == VT_STRING ==> has(
                CellsView::Texts(masked(Seq::new(col.strs.len(), |k: int| shown_text(col.strs[k])), mask)),
            )
            &&& col.vtype == VT_BINARY ==> has(CellsView::Bytes(masked(col.bins, mask)))
        }),
{
    let mask = mask_of(cols, preds, preds.len() as int);
    marks_are_counted(mask, mask.len());
    lemma_table_columns(cols, projection, mask, d);
    let col = cols[d];
    assert(crate::table::shown_texts(col.strs) =~= Seq::new(col.strs.len(), |k: int| shown_text(col.strs[k])));
}

proof fn lemma_table_columns(cols: Seq<ColumnView>, projection: Option<Seq<Seq<char>>>, mask: Seq<bool>, d: int)
    requires
        0 <= d < cols.len(),
        forall|e: int| d < e < cols.len() ==> shown_text((#[trigger] cols[e]).name) != shown_text(cols[d].name),
        shown_text(cols[d].name) != "_n_rows"@,
        shown_text(cols[d].name) != "_n_columns"@,
        projection matches Some(names) ==> names.contains(shown_text(cols[d].name)),
    ensures
        exists|at: int| #[trigger]
            column_place(
                table_columns(cols, projection, mask),
                shown_text(cols[d].name),
                at,
                cells_of(cols[d], mask),
            ),
    decreases cols.len(),
{
    let rest = cols.drop_last();
    let prev = table_columns(rest, projection, mask);
    let last = cols.last();
    let name = shown_text(last.name);
    lemma_with_column_has(prev, name, cells_of(last, mask));
    if d < rest.len() {
        assert forall|e: int| d < e < rest.len() implies shown_text((#[trigger] rest[e]).name) != shown_text(
            rest[d].name,
        ) by {
            assert(rest[e] == cols[e]);
        }
        assert(rest[d] == cols[d]);
        lemma_table_columns(rest, projection, mask, d);
        let at = choose|at: int| #[trigger]
            column_place(prev, shown_text(cols[d].name), at, cells_of(cols[d], mask));
        assert(cols[cols.len() - 1] == last);
        assert(name != shown_text(cols[d].name));
        assert(column_place(
            table_columns(cols, projection, mask),
            shown_text(cols[d].name),
            at,
            cells_of(cols[d], mask),
        ));
    } else {
        assert(cols[d] == last);
        assert(table_columns(cols, projection, mask) == with_column(prev, name, cells_of(last, mask)));
        let at = choose|at: int| #[trigger]
            column_place(with_column(prev, name, cells_of(last, mask)), name, at, cells_of(last, mask));
        assert(column_place(table_columns(cols, projection, mask), name, at, cells_of(cols[d], mask)));
    }
}

/// A table has no column that was not asked for.
pub proof fn tables_have_only_what_is_asked(
    cols: Seq<ColumnView>,
    names: Seq<Seq<char>>,
    mask: Seq<bool>,
    at: int,
)
    requires
        0 <= at < table_columns(cols, Some(names), mask).len(),
    ensures
        names.contains(table_columns(cols, Some(names), mask)[at].0),
    decreases cols.len(),
{
    if cols.len() > 0 {
        let rest = cols.drop_last();
        let prev = table_columns(rest, Some(names), mask);
        let name = shown_text(cols.last().name);
        let all = table_columns(cols, Some(names), mask);
        if at < prev.len() {
            tables_have_only_what_is_asked(rest, names, mask, at);
        }
        lemma_with_column_names(prev, name, cells_of(cols.last(), mask));
    }
}

proof fn lemma_with_column_names(cols: Seq<(Seq<char>, CellsView)>, name: Seq<char>, cells: CellsView)
    ensures
        with_column(cols, name, cells).len() <= cols.len() + 1,
        with_column(cols, name, cells).len() >= cols.len(),
        forall|i: int| 0 <= i < cols.len() ==> (#[trigger] with_column(cols, name, cells)[i]).0 == cols[i].0,
        with_column(cols, name, cells).len() > cols.len() ==> with_column(cols, name, cells)[cols.len() as int].0
            == name,
    decreases cols.len(),
{
    if cols.len() > 0 && cols[0].0 != name {
        let rest = cols.drop_first();
        lemma_with_column_names(rest, name, cells);
        let r = with_column(cols, name, cells);
        let s = with_column(rest, name, cells);
        assert forall|i: int| 0 <= i < cols.len() implies (#[trigger] r[i]).0 == cols[i].0 by {
            if i > 0 {
                assert(r[i] == s[i - 1]);
                assert(s[i - 1].0 == rest[i - 1].0);
            }
        }
        if r.len() > cols.len() {
            assert(r[cols.len() as int] == s[rest.len() as int]);
        }
    }
}

/// A number that a column does not have counts as zero, as does a value to compare with
/// that is no number.
pub proof fn missing_numbers_count_as_zero(col: ColumnView, op: Seq<char>, target: Target, i: int)
    requires
        0 <= i,
        op_of(op) != Op::Unknown,
    ensures
        col.vtype == VT_INT64 && i >= col.ints.len() && target.int is Some ==> (cell_meets(col, op, target, i) <==> int_holds(
            op_of(op),
            0,
            target.int->0 as int,
        )),
        col.vtype == VT_INT64 && i < col.ints.len() && target.int is None ==> (cell_meets(col, op, target, i) <==> int_holds(
            op_of(op),
            col.ints[i] as int,
            0,
        )),
        col.vtype == VT_FLOAT64 && i >= col.floats.len() && target.float is Some ==> (cell_meets(col, op, target, i)
            <==> float_holds(op_of(op), 0, target.float->0)),
        col.vtype == VT_FLOAT64 && i < col.floats.len() && target.float is None ==> (cell_meets(col, op, target, i)
            <==> float_holds(op_of(op), col.floats[i], 0)),
        col.vtype != VT_INT64 && col.vtype != VT_FLOAT64 ==> cell_meets(col, op, target, i),
{
}

} // verus!
