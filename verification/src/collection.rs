//! Reading a collection: the rows of its head and of its shards, what merging
//! and a policy leave of them, and the columns they make.

use vstd::prelude::*;
use vstd::string::*;
use crate::blob::column_views;
use crate::crdt::{crdt_merge_rows, merged_rows, no_deleted_row_is_left, row_deleted};
use crate::infer::masked;
use crate::json::{copy_json, field_views, json_parsed, json_views, lemma_array_view, parse_json, Json, JsonValue};
use crate::merge_text::opt_str;
use crate::policy::{belongs, only_own_rows, tenant_rows, visible_rows};
use crate::query::{cells_views, columns_of_rows, filter_rows, opt_texts, passing, rows_to_columns};
use crate::rows::{decode_cols_to_rows_filtered, determine_rowid, kept_rows, row_count, rowid_for, CellExtras};
use crate::text::text_views;
use crate::types::{byte_views, PondColumn};
use crate::where_clause::predicate_views;

verus! {

/// A decoded row group of the head, the JSON texts of its floats, and which of
/// its rows to keep; all without a mask.
pub struct StoredGroup {
    pub columns: Vec<PondColumn>,
    pub extras: Vec<CellExtras>,
    pub mask: Option<Vec<bool>>,
}

/// A mask tells of every row.
pub open spec fn group_ok(g: StoredGroup) -> bool {
    g.mask matches Some(m) ==> m@.len() >= row_count(column_views(g.columns@))
}

/// The rows of a group with their ids.
pub open spec fn rows_of_group(g: StoredGroup, key_fields: Seq<Seq<char>>) -> Seq<(Seq<char>, Json)> {
    kept_rows(
        column_views(g.columns@),
        g.extras@,
        key_fields,
        match g.mask {
            Some(m) => Some(m@),
            None => None,
        },
        row_count(column_views(g.columns@)),
    )
}

/// The rows of groups, one group after the other.
pub open spec fn head_rows(groups: Seq<StoredGroup>, key_fields: Seq<Seq<char>>) -> Seq<(Seq<char>, Json)>
    decreases groups.len(),
{
    if groups.len() == 0 {
        Seq::empty()
    } else {
        head_rows(groups.drop_last(), key_fields) + rows_of_group(groups.last(), key_fields)
    }
}

/// Rows with the ids that they have by themselves or by their key fields.
pub open spec fn with_ids(rows: Seq<Json>, key_fields: Seq<Seq<char>>) -> Seq<(Seq<char>, Json)> {
    Seq::new(rows.len(), |i: int| (rowid_for(rows[i], key_fields), rows[i]))
}

/// The rows of a shard: those of the JSON list that it is; none where it is no
/// such list.
pub open spec fn rows_of_shard(shard: Seq<u8>, key_fields: Seq<Seq<char>>) -> Seq<(Seq<char>, Json)> {
    match json_parsed(shard) {
        Ok(Json::Array(items)) => with_ids(items, key_fields),
        _ => Seq::empty(),
    }
}

/// The rows of shards, one shard after the other.
pub open spec fn shard_rows(shards: Seq<Seq<u8>>, key_fields: Seq<Seq<char>>) -> Seq<(Seq<char>, Json)>
    decreases shards.len(),
{
    if shards.len() == 0 {
        Seq::empty()
    } else {
        shard_rows(shards.drop_last(), key_fields) + rows_of_shard(shards.last(), key_fields)
    }
}

fn append_rows(out: &mut Vec<(String, JsonValue)>, rows: Vec<(String, JsonValue)>)
    ensures
        field_views(final(out)@) == field_views(old(out)@) + field_views(rows@),
{
    let ghost start = out@;
    let ghost all = rows@;
    let mut rows = rows;
    out.append(&mut rows);
    proof {
        assert(field_views(out@) =~= field_views(start) + field_views(all));
    }
}

fn append_shard(out: &mut Vec<(String, JsonValue)>, shard: &Vec<u8>, key_fields: &Vec<String>)
    ensures
        field_views(final(out)@) == field_views(old(out)@) + rows_of_shard(
            shard@,
            text_views(key_fields@),
        ),
{
    let ghost start = field_views(out@);
    let ghost kf = text_views(key_fields@);
    proof {
        assert(start + Seq::<(Seq<char>, Json)>::empty() =~= start);
    }
    match parse_json(shard) {
        Ok(JsonValue::Array(items)) => {
            let ghost iv = json_views(items@);
            let ghost want = with_ids(iv, kf);
            proof {
                lemma_array_view(items);
            }
            let mut i: usize = 0;
            proof {
                assert(start + want.take(0) =~= start);
            }
            while i < items.len()
                invariant
                    i <= items@.len(),
                    kf == text_views(key_fields@),
                    iv == json_views(items@),
                    want == with_ids(iv, kf),
                    field_views(out@) == start + want.take(i as int),
                decreases items@.len() - i,
            {
                let ghost before = field_views(out@);
                let id = determine_rowid(&items[i], key_fields);
                let row = copy_json(&items[i]);
                let ghost f = (id@, row@);
                out.push((id, row));
                proof {
                    assert(field_views(out@) =~= before.push(f));
                    assert(want[i as int] == f);
                    assert(start + want.take(i as int + 1) =~= (start + want.take(i as int)).push(f));
                }
                i = i + 1;
            }
            proof {
                assert(want.take(i as int) =~= want);
            }
        },
        _ => {},
    }
}

/// Reads the rows of a collection with their ids: those of the head's row
/// groups, then those of the shards.
pub fn read_collection_as_json_rows_filtered(
    groups: &Vec<StoredGroup>,
    shards: &Vec<Vec<u8>>,
    key_fields: &Vec<String>,
) -> (r: Vec<(String, JsonValue)>)
    requires
        forall|i: int| 0 <= i < groups@.len() ==> group_ok(#[trigger] groups@[i]),
    ensures
        field_views(r@) == head_rows(groups@, text_views(key_fields@)) + shard_rows(
            byte_views(shards@),
            text_views(key_fields@),
        ),
{
    let ghost kf = text_views(key_fields@);
    let ghost sv = byte_views(shards@);
    let mut out: Vec<(String, JsonValue)> = Vec::new();
    let mut g: usize = 0;
    proof {
        assert(groups@.take(0) =~= Seq::<StoredGroup>::empty());
        assert(field_views(out@) =~= Seq::<(Seq<char>, Json)>::empty());
    }
    while g < groups.len()
        invariant
            g <= groups@.len(),
            kf == text_views(key_fields@),
            forall|i: int| 0 <= i < groups@.len() ==> group_ok(#[trigger] groups@[i]),
            field_views(out@) == head_rows(groups@.take(g as int), kf),
        decreases groups@.len() - g,
    {
        let group = &groups[g];
        proof {
            assert(group_ok(groups@[g as int]));
            assert(groups@.take(g as int + 1).drop_last() =~= groups@.take(g as int));
            assert(groups@.take(g as int + 1).last() == groups@[g as int]);
        }
        let rows = match &group.mask {
            Some(m) => decode_cols_to_rows_filtered(&group.columns, &group.extras, key_fields, Some(m.as_slice())),
            None => decode_cols_to_rows_filtered(&group.columns, &group.extras, key_fields, None),
        };
        append_rows(&mut out, rows);
        g = g + 1;
    }
    proof {
        assert(groups@.take(g as int) =~= groups@);
    }
    let ghost head = field_views(out@);
    let mut s: usize = 0;
    proof {
        assert(sv.take(0) =~= Seq::<Seq<u8>>::empty());
        assert(head + shard_rows(sv.take(0), kf) =~= head);
    }
    while s < shards.len()
        invariant
            s <= shards@.len(),
            kf == text_views(key_fields@),
            sv == byte_views(shards@),
            field_views(out@) == head + shard_rows(sv.take(s as int), kf),
        decreases shards@.len() - s,
    {
        proof {
            assert(sv.take(s as int + 1).drop_last() =~= sv.take(s as int));
            assert(sv.take(s as int + 1).last() == shards@[s as int]@);
        }
        let ghost prev = shard_rows(sv.take(s as int), kf);
        append_shard(&mut out, &shards[s], key_fields);
        proof {
            assert((head + prev) + rows_of_shard(sv[s as int], kf) =~= head + (prev + rows_of_shard(
                sv[s as int],
                kf,
            )));
        }
        s = s + 1;
    }
    proof {
        assert(sv.take(s as int) =~= sv);
    }
    out
}

/// The rows that a reader sees: what merging leaves, under a policy.
pub open spec fn seen_rows(rows: Seq<(Seq<char>, Json)>, tenant: Option<Seq<char>>) -> Seq<Json> {
    visible_rows(merged_rows(rows), tenant)
}

/// Merges the rows of a collection and keeps those that a policy lets through.
pub fn rows_seen(all_rows: &Vec<(String, JsonValue)>, tenant: Option<&str>) -> (r: Vec<JsonValue>)
    ensures
        json_views(r@) == seen_rows(field_views(all_rows@), opt_str(tenant)),
{
    let merged = crdt_merge_rows(all_rows);
    tenant_rows(&merged, tenant)
}

/// Reads the rows that pass the predicates into columns, those of a projection
/// where there is one. `equal` tells for each predicate and row whether the cell
/// equals the predicate's value.
pub fn read_rows(
    rows: &Vec<JsonValue>,
    predicates: &Vec<(String, String, JsonValue)>,
    equal: &Vec<Vec<bool>>,
    projection: Option<&Vec<String>>,
) -> (r: Vec<(String, Vec<Option<JsonValue>>)>)
    ensures
        cells_views(r@) == columns_of_rows(
            masked(
                json_views(rows@),
                passing(
                    json_views(rows@),
                    predicate_views(predicates@),
                    equal@,
                    predicates@.len(),
                ),
            ),
            opt_texts(projection),
        ),
{
    let mask = filter_rows(rows, predicates, equal);
    let ghost all = json_views(rows@);
    let mut kept: Vec<JsonValue> = Vec::new();
    let mut i: usize = 0;
    proof {
        assert(all.take(0) =~= Seq::<Json>::empty());
        assert(json_views(kept@) =~= Seq::<Json>::empty());
    }
    while i < rows.len()
        invariant
            i <= rows@.len(),
            all == json_views(rows@),
            json_views(kept@) == masked(all.take(i as int), mask@),
        decreases rows@.len() - i,
    {
        let ghost before = json_views(kept@);
        proof {
            assert(all.take(i as int + 1).drop_last() =~= all.take(i as int));
            assert(all.take(i as int + 1).last() == all[i as int]);
        }
        if i < mask.len() && mask[i] {
            let row = copy_json(&rows[i]);
            let ghost rv = row@;
            kept.push(row);
            proof {
                assert(json_views(kept@) =~= before.push(rv));
            }
        }
        i = i + 1;
    }
    proof {
        assert(all.take(i as int) =~= all);
    }
    rows_to_columns(&kept, projection)
}

proof fn lemma_seen_among(rows: Seq<Json>, tenant: Option<Seq<char>>, i: int)
    requires
        0 <= i < visible_rows(rows, tenant).len(),
    ensures
        rows.contains(visible_rows(rows, tenant)[i]),
    decreases rows.len(),
{
    if tenant is Some {
        let t = rows.drop_last();
        let prev = visible_rows(t, tenant);
        if i < prev.len() {
            lemma_seen_among(t, tenant, i);
            let k = choose|k: int| 0 <= k < t.len() && t[k] == prev[i];
            assert(rows[k] == prev[i]);
        } else {
            assert(rows[rows.len() - 1] == rows.last());
        }
    } else {
        assert(rows[i] == visible_rows(rows, tenant)[i]);
    }
}

/// Under a policy a reader sees rows of its own tenant only; and no reader sees
/// a row whose latest version is deleted.
pub proof fn seen_rows_are_own_and_live(rows: Seq<(Seq<char>, Json)>, tenant: Option<Seq<char>>, i: int)
    requires
        0 <= i < seen_rows(rows, tenant).len(),
    ensures
        tenant matches Some(t) ==> belongs(seen_rows(rows, tenant)[i], t),
        !row_deleted(seen_rows(rows, tenant)[i]),
{
    let merged = merged_rows(rows);
    if let Some(t) = tenant {
        only_own_rows(merged, t, i);
    }
    lemma_seen_among(merged, tenant, i);
    let k = choose|k: int| 0 <= k < merged.len() && merged[k] == seen_rows(rows, tenant)[i];
    no_deleted_row_is_left(rows, k);
}

} // verus!
