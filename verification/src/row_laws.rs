//! What the rows are that a merge writes, compares and shows to its conditions.

use vstd::prelude::*;
use vstd::string::*;
use crate::json::{json_shown, key_at, lemma_key_at, lookup, member, put, put_then_lookup, Json};
use crate::merge::{composite_key, data_fields, fields_of, merge_context, overridden, set_row, with_source,
    with_target, SetView, SpecView};

verus! {

/// A row that replaces another without a SET clause is the source row under the id
/// of the row that it replaces; a new one is the source row as it is.
pub proof fn plain_row_is_the_source(source: Json, target: Option<Json>, id: Seq<char>, col: Seq<char>)
    requires
        source is Object,
    ensures
        set_row(target, source, None, None) == source,
        member(set_row(target, source, None, Some(id)), "_rowid"@) == Some(Json::String(id)),
        col != "_rowid"@ ==> member(set_row(target, source, None, Some(id)), col) == member(source, col),
{
    put_then_lookup(source->Object_0, "_rowid"@, Json::String(id), col);
}

/// The place of the last override of a column.
pub open spec fn is_last_override(columns: Seq<(Seq<char>, SpecView)>, col: Seq<char>, k: int) -> bool {
    &&& 0 <= k < columns.len() && columns[k].0 == col
    &&& forall|m: int| k < m < columns.len() ==> (#[trigger] columns[m]).0 != col
}

proof fn lemma_overridden(
    base: Seq<(Seq<char>, Json)>,
    columns: Seq<(Seq<char>, SpecView)>,
    target: Option<Json>,
    source: Json,
    col: Seq<char>,
    k: int,
)
    ensures
        is_last_override(columns, col, k) ==> lookup(overridden(base, columns, target, source), col) == Some(
            match columns[k].1 {
                SpecView::Static(v) => v,
                SpecView::SourceCol(c) => match member(source, c) {
                    Some(v) => v,
                    None => Json::Null,
                },
                SpecView::TargetCol(c) => match target {
                    Some(t) => match member(t, c) {
                        Some(v) => v,
                        None => Json::Null,
                    },
                    None => Json::Null,
                },
            },
        ),
        (forall|m: int| 0 <= m < columns.len() ==> (#[trigger] columns[m]).0 != col) ==> lookup(
            overridden(base, columns, target, source),
            col,
        ) == lookup(base, col),
    decreases columns.len(),
{
    if columns.len() > 0 {
        let rest = columns.drop_last();
        lemma_overridden(base, rest, target, source, col, k);
        let (c, s) = columns.last();
        put_then_lookup(
            overridden(base, rest, target, source),
            c,
            crate::merge::spec_value(s, target, source),
            col,
        );
        assert(columns[columns.len() - 1] == columns.last());
        if is_last_override(columns, col, k) && k < columns.len() - 1 {
            assert(columns[columns.len() - 1].0 != col);
            assert forall|m: int| k < m < rest.len() implies (#[trigger] rest[m]).0 != col by {
                assert(rest[m] == columns[m]);
            }
            assert(rest[k] == columns[k]);
        }
        if forall|m: int| 0 <= m < columns.len() ==> (#[trigger] columns[m]).0 != col {
            assert forall|m: int| 0 <= m < rest.len() implies (#[trigger] rest[m]).0 != col by {
                assert(rest[m] == columns[m]);
            }
            assert(columns[columns.len() - 1].0 != col);
        }
    }
}

proof fn lemma_data_fields(fields: Seq<(Seq<char>, Json)>, col: Seq<char>)
    ensures
        lookup(data_fields(fields), col) == (if col == "_rowid"@ || col == "_version"@ || col == "_deleted"@ {
            None
        } else {
            lookup(fields, col)
        }),
    decreases fields.len(),
{
    lemma_key_at(fields, col);
    lemma_key_at(data_fields(fields), col);
    if fields.len() > 0 {
        let rest = fields.drop_last();
        lemma_data_fields(rest, col);
        let (k, v) = fields.last();
        let prev = data_fields(rest);
        lemma_key_at(rest, col);
        lemma_key_at(prev, col);
        let meta = k == "_rowid"@ || k == "_version"@ || k == "_deleted"@;
        if !meta {
            let all = data_fields(fields);
            assert(all == prev.push((k, v)));
            assert(all.drop_last() =~= prev);
        }
        match key_at(rest, col) {
            Some(i) => {
                assert(rest[i] == fields[i]);
            },
            None => {},
        }
    }
}

/// The row that a SET clause makes. Its id is that of the row that it replaces. A
/// column that the clause sets has what the last such part says: a fixed value, or
/// the value of a source or target column, null where there is none. Any other column
/// is as in the target row; where the clause copies all, as in the source row, and
/// then without metadata.
pub proof fn set_clause_makes_the_row(
    target: Option<Json>,
    source: Json,
    clause: SetView,
    id: Option<Seq<char>>,
    col: Seq<char>,
    k: int,
)
    ensures
        ({
            let row = set_row(target, source, Some(clause), id);
            let other = !(id is Some && col == "_rowid"@);
            let unset = forall|m: int| 0 <= m < clause.columns.len() ==> (#[trigger] clause.columns[m]).0 != col;
            &&& row is Object
            &&& id matches Some(x) ==> member(row, "_rowid"@) == Some(Json::String(x))
            &&& other && is_last_override(clause.columns, col, k) ==> member(row, col) == Some(
                match clause.columns[k].1 {
                    SpecView::Static(v) => v,
                    SpecView::SourceCol(c) => match member(source, c) {
                        Some(v) => v,
                        None => Json::Null,
                    },
                    SpecView::TargetCol(c) => match target {
                        Some(t) => match member(t, c) {
                            Some(v) => v,
                            None => Json::Null,
                        },
                        None => Json::Null,
                    },
                },
            )
            &&& other && unset && !clause.copy_all ==> member(row, col) == (match target {
                Some(t) => member(t, col),
                None => None,
            })
            &&& other && unset && clause.copy_all ==> member(row, col) == (if col == "_rowid"@ || col == "_version"@
                || col == "_deleted"@ {
                None
            } else {
                member(source, col)
            })
        }),
{
    let base = if clause.copy_all {
        data_fields(fields_of(source))
    } else {
        match target {
            Some(t) => fields_of(t),
            None => Seq::empty(),
        }
    };
    lemma_overridden(base, clause.columns, target, source, col, k);
    lemma_data_fields(fields_of(source), col);
    lemma_key_at(Seq::<(Seq<char>, Json)>::empty(), col);
    if let Some(x) = id {
        put_then_lookup(overridden(base, clause.columns, target, source), "_rowid"@, Json::String(x), col);
    }
}

/// The key under one column is the JSON text of its cell, and empty where there is
/// none; the key of rows with the same cells is the same.
pub proof fn key_is_made_of_cells(a: Json, b: Json, cols: Seq<Seq<char>>, other: Seq<Seq<char>>, col: Seq<char>)
    ensures
        composite_key(a, seq![col]) == (match member(a, col) {
            Some(v) => json_shown(v),
            None => Seq::empty(),
        }),
        cols.len() == other.len() && (forall|i: int|
            0 <= i < cols.len() ==> member(a, #[trigger] cols[i]) == member(b, other[i])) ==> composite_key(a, cols)
            == composite_key(b, other),
    decreases cols.len(),
{
    assert(seq![col].drop_last() =~= Seq::<Seq<char>>::empty());
    assert(composite_key(a, seq![col].drop_last()).len() == 0);
    if cols.len() > 0 && cols.len() == other.len() && (forall|i: int|
        0 <= i < cols.len() ==> member(a, #[trigger] cols[i]) == member(b, other[i])) {
        let c = cols.drop_last();
        let o = other.drop_last();
        assert forall|i: int| 0 <= i < c.len() implies member(a, #[trigger] c[i]) == member(b, o[i]) by {
            assert(c[i] == cols[i]);
        }
        key_is_made_of_cells(a, b, c, o, col);
        assert(member(a, cols[cols.len() - 1]) == member(b, other[cols.len() - 1]));
    }
}

/// The JSON text of a cell; empty where there is none.
spec fn text_at(row: Json, col: Seq<char>) -> Seq<char> {
    match member(row, col) {
        Some(v) => json_shown(v),
        None => Seq::empty(),
    }
}

/// Rows with one key under several columns have the same JSON text in each, where
/// the texts are not empty and hold no unit separator.
pub proof fn equal_keys_have_equal_cells(a: Json, b: Json, cols: Seq<Seq<char>>, other: Seq<Seq<char>>, k: int)
    requires
        cols.len() == other.len(),
        0 <= k < cols.len(),
        composite_key(a, cols) == composite_key(b, other),
        forall|i: int|
            0 <= i < cols.len() ==> member(a, #[trigger] cols[i]) is Some && json_shown(
                member(a, cols[i])->0,
            ).len() > 0 && !json_shown(member(a, cols[i])->0).contains('\u{1f}'),
        forall|i: int|
            0 <= i < other.len() ==> member(b, #[trigger] other[i]) is Some && json_shown(
                member(b, other[i])->0,
            ).len() > 0 && !json_shown(member(b, other[i])->0).contains('\u{1f}'),
    ensures
        json_shown(member(a, cols[k])->0) == json_shown(member(b, other[k])->0),
    decreases cols.len(),
{
    let c = cols.drop_last();
    let o = other.drop_last();
    let x = text_at(a, cols.last());
    let y = text_at(b, other.last());
    assert(cols[cols.len() - 1] == cols.last() && other[other.len() - 1] == other.last());
    assert(x.len() > 0 && y.len() > 0 && !x.contains('\u{1f}') && !y.contains('\u{1f}')) by {
        assert(member(a, cols[cols.len() - 1]) is Some);
        assert(member(b, other[cols.len() - 1]) is Some);
    }
    assert forall|i: int| 0 <= i < c.len() implies member(a, #[trigger] c[i]) is Some && json_shown(
        member(a, c[i])->0,
    ).len() > 0 && !json_shown(member(a, c[i])->0).contains('\u{1f}') by {
        assert(c[i] == cols[i]);
    }
    assert forall|i: int| 0 <= i < o.len() implies member(b, #[trigger] o[i]) is Some && json_shown(
        member(b, o[i])->0,
    ).len() > 0 && !json_shown(member(b, o[i])->0).contains('\u{1f}') by {
        assert(o[i] == other[i]);
    }
    let p = composite_key(a, c);
    let q = composite_key(b, o);
    if cols.len() > 1 {
        lemma_key_not_empty(a, c);
        lemma_key_not_empty(b, o);
        let u = p.push('\u{1f}') + x;
        let v = q.push('\u{1f}') + y;
        assert(u == v);
        if x.len() < y.len() {
            let at = u.len() - x.len() - 1;
            assert(u[at] == '\u{1f}');
            assert(v[at] == y[at - q.len() - 1]);
        }
        if y.len() < x.len() {
            let at = v.len() - y.len() - 1;
            assert(v[at] == '\u{1f}');
            assert(u[at] == x[at - p.len() - 1]);
        }
        assert(u.skip((p.len() + 1) as int) =~= x);
        assert(v.skip((q.len() + 1) as int) =~= y);
        assert(u.take(p.len() as int) =~= p);
        assert(v.take(q.len() as int) =~= q);
        if k < cols.len() - 1 {
            equal_keys_have_equal_cells(a, b, c, o, k);
        }
    } else {
        assert(c =~= Seq::<Seq<char>>::empty() && o =~= Seq::<Seq<char>>::empty());
    }
}

proof fn lemma_key_not_empty(row: Json, cols: Seq<Seq<char>>)
    requires
        cols.len() > 0,
        forall|i: int|
            0 <= i < cols.len() ==> member(row, #[trigger] cols[i]) is Some && json_shown(
                member(row, cols[i])->0,
            ).len() > 0,
    ensures
        composite_key(row, cols).len() > 0,
{
    assert(member(row, cols[cols.len() - 1]) is Some);
}

proof fn lemma_with_target(ctx: Seq<(Seq<char>, Json)>, fields: Seq<(Seq<char>, Json)>, col: Seq<char>)
    requires
        forall|i: int| 0 <= i < fields.len() ==> !starts_dotted((#[trigger] fields[i]).0),
        !starts_dotted(col),
    ensures
        lookup(with_target(ctx, fields), "t."@ + col) == (match last_of(fields, col) {
            Some(v) => Some(v),
            None => lookup(ctx, "t."@ + col),
        }),
        lookup(with_target(ctx, fields), col) == (match last_of(fields, col) {
            Some(v) => Some(v),
            None => lookup(ctx, col),
        }),
        lookup(with_target(ctx, fields), "s."@ + col) == lookup(ctx, "s."@ + col),
    decreases fields.len(),
{
    reveal_strlit("t.");
    reveal_strlit("s.");
    if fields.len() > 0 {
        let rest = fields.drop_last();
        assert forall|i: int| 0 <= i < rest.len() implies !starts_dotted((#[trigger] rest[i]).0) by {
            assert(rest[i] == fields[i]);
        }
        lemma_with_target(ctx, rest, col);
        let (k, v) = fields.last();
        assert(fields[fields.len() - 1].0 == k);
        let prev = with_target(ctx, rest);
        let mid = put(prev, "t."@ + k, v);
        lemma_prefixed(k, col);
        put_then_lookup(prev, "t."@ + k, v, "t."@ + col);
        put_then_lookup(prev, "t."@ + k, v, col);
        put_then_lookup(prev, "t."@ + k, v, "s."@ + col);
        put_then_lookup(mid, k, v, "t."@ + col);
        put_then_lookup(mid, k, v, col);
        put_then_lookup(mid, k, v, "s."@ + col);
    }
}

/// The name starts like one with `t.` or `s.` before it.
pub open spec fn starts_dotted(name: Seq<char>) -> bool {
    name.len() >= 2 && (name[0] == 't' || name[0] == 's') && name[1] == '.'
}

/// The value of the last field of a name.
pub open spec fn last_of(fields: Seq<(Seq<char>, Json)>, col: Seq<char>) -> Option<Json>
    decreases fields.len(),
{
    if fields.len() == 0 {
        None
    } else if fields.last().0 == col {
        Some(fields.last().1)
    } else {
        last_of(fields.drop_last(), col)
    }
}

proof fn lemma_prefixed(a: Seq<char>, b: Seq<char>)
    ensures
        ("t."@ + a == "t."@ + b) <==> a == b,
        ("s."@ + a == "s."@ + b) <==> a == b,
        "t."@ + a != "s."@ + b,
        starts_dotted("t."@ + a),
        starts_dotted("s."@ + a),
        starts_dotted("t."@ + b),
        starts_dotted("s."@ + b),
{
    reveal_strlit("t.");
    reveal_strlit("s.");
    assert(("t."@ + a).skip(2) =~= a);
    assert(("t."@ + b).skip(2) =~= b);
    assert(("s."@ + a).skip(2) =~= a);
    assert(("s."@ + b).skip(2) =~= b);
    assert(("t."@ + a)[0] == 't');
    assert(("s."@ + b)[0] == 's');
}

proof fn lemma_with_source(ctx: Seq<(Seq<char>, Json)>, fields: Seq<(Seq<char>, Json)>, col: Seq<char>)
    requires
        forall|i: int| 0 <= i < fields.len() ==> !starts_dotted((#[trigger] fields[i]).0),
        !starts_dotted(col),
    ensures
        lookup(with_source(ctx, fields), "s."@ + col) == (match last_of(fields, col) {
            Some(v) => Some(v),
            None => lookup(ctx, "s."@ + col),
        }),
        lookup(with_source(ctx, fields), "t."@ + col) == lookup(ctx, "t."@ + col),
        lookup(with_source(ctx, fields), col) == (match lookup(ctx, col) {
            Some(v) => Some(v),
            None => lookup(fields, col),
        }),
    decreases fields.len(),
{
    reveal_strlit("t.");
    reveal_strlit("s.");
    lemma_key_at(fields, col);
    if fields.len() > 0 {
        let rest = fields.drop_last();
        assert forall|i: int| 0 <= i < rest.len() implies !starts_dotted((#[trigger] rest[i]).0) by {
            assert(rest[i] == fields[i]);
        }
        lemma_with_source(ctx, rest, col);
        let (k, v) = fields.last();
        assert(fields[fields.len() - 1].0 == k);
        let prev = with_source(ctx, rest);
        let mid = put(prev, "s."@ + k, v);
        lemma_prefixed(k, col);
        put_then_lookup(prev, "s."@ + k, v, "t."@ + col);
        put_then_lookup(prev, "s."@ + k, v, col);
        put_then_lookup(prev, "s."@ + k, v, "s."@ + col);
        put_then_lookup(prev, "s."@ + k, v, k);
        put_then_lookup(mid, k, v, "t."@ + col);
        put_then_lookup(mid, k, v, col);
        put_then_lookup(mid, k, v, "s."@ + col);
        lemma_key_at(rest, col);
        match key_at(rest, col) {
            Some(i) => {
                assert(rest[i] == fields[i]);
            },
            None => {},
        }
    }
}

proof fn lemma_last_is_lookup(fields: Seq<(Seq<char>, Json)>, col: Seq<char>)
    requires
        forall|i: int, j: int|
            0 <= i < j < fields.len() ==> (#[trigger] fields[i]).0 != (#[trigger] fields[j]).0,
    ensures
        last_of(fields, col) == lookup(fields, col),
    decreases fields.len(),
{
    lemma_key_at(fields, col);
    if fields.len() > 0 {
        let rest = fields.drop_last();
        assert forall|i: int, j: int| 0 <= i < j < rest.len() implies (#[trigger] rest[i]).0 != (
        #[trigger] rest[j]).0 by {
            assert(rest[i] == fields[i] && rest[j] == fields[j]);
        }
        lemma_last_is_lookup(rest, col);
        lemma_key_at(rest, col);
        match key_at(rest, col) {
            Some(i) => {
                assert(rest[i] == fields[i]);
                assert(fields[i].0 != fields[fields.len() - 1].0);
            },
            None => {},
        }
    }
}

/// A row has plain columns: each once, and none named like one of another row.
pub open spec fn plain_columns(row: Json) -> bool {
    row matches Json::Object(fields) && (forall|i: int|
        0 <= i < fields.len() ==> !starts_dotted((#[trigger] fields[i]).0)) && (forall|i: int, j: int|
        0 <= i < j < fields.len() ==> (#[trigger] fields[i]).0 != (#[trigger] fields[j]).0)
}

/// A condition of a merge sees the target's columns under `t.`, the source's under
/// `s.`, and under a bare name the target's column, else the source's.
pub proof fn conditions_see_both_rows(target: Option<Json>, source: Json, col: Seq<char>)
    requires
        plain_columns(source),
        target matches Some(t) ==> plain_columns(t),
        !starts_dotted(col),
    ensures
        ({
            let seen = merge_context(target, source);
            let of_target = match target {
                Some(t) => member(t, col),
                None => None,
            };
            &&& member(seen, "t."@ + col) == of_target
            &&& member(seen, "s."@ + col) == member(source, col)
            &&& member(seen, col) == (if of_target is Some {
                of_target
            } else {
                member(source, col)
            })
        }),
{
    let none = Seq::<(Seq<char>, Json)>::empty();
    lemma_key_at(none, "t."@ + col);
    lemma_key_at(none, "s."@ + col);
    lemma_key_at(none, col);
    let t = match target {
        Some(row) => with_target(none, fields_of(row)),
        None => none,
    };
    if let Some(row) = target {
        lemma_with_target(none, fields_of(row), col);
        lemma_last_is_lookup(fields_of(row), col);
    }
    lemma_with_source(t, fields_of(source), col);
    lemma_last_is_lookup(fields_of(source), col);
}

} // verus!
