//! What a merge does, row by row and action by action.

use vstd::prelude::*;
use vstd::string::*;
use crate::json::{member, Json};
use crate::merge::{all_matches, composite_key, last_match, plan_views, rowid_of, set_row, source_cols, target_cols,
    MergeActionType, MergePlanAction, SetView};
use crate::plan::{acted, acted_all, after_sources, after_targets, id_matched, planned, row_of_table, rowid_or_empty,
    verdict_at, Outcome, Plans, Situation};
use crate::tally::{how_many, sum_to};

verus! {

/// Action `k` of a plan is carried out on row `i`: it has no condition, or the
/// table of verdicts says that its condition holds of the row.
pub open spec fn fires(plan: Seq<MergePlanAction>, table: Seq<Vec<bool>>, i: int, k: int) -> bool {
    plan[k].condition is None || (i < table.len() && k < table[i]@.len() && table[i]@[k])
}

/// How many actions of one kind of a plan are carried out on row `i`.
pub open spec fn fired(plan: Seq<MergePlanAction>, table: Seq<Vec<bool>>, i: int, kind: MergeActionType) -> nat {
    how_many(plan.len(), |k: int| plan[k].action == kind && fires(plan, table, i, k))
}

/// How many actions of a plan leave row `i` alone: those that say so, and those
/// whose condition does not hold.
pub open spec fn left_alone(plan: Seq<MergePlanAction>, table: Seq<Vec<bool>>, i: int) -> nat {
    how_many(plan.len(), |k: int| plan[k].action == MergeActionType::Skip || !fires(plan, table, i, k))
}

/// Target row `j` has no source row.
pub open spec fn without_source(existing: Seq<Json>, matches: Seq<Option<int>>, j: int) -> bool {
    forall|i: int|
        0 <= i < matches.len() && (#[trigger] matches[i]) is Some ==> rowid_or_empty(
            existing[matches[i]->0],
        ) != rowid_or_empty(existing[j])
}

proof fn lemma_plan_counts(
    o: Outcome,
    plan: Seq<MergePlanAction>,
    table: Seq<Vec<bool>>,
    i: int,
    at: Situation,
    n: nat,
)
    requires
        n <= plan.len(),
        0 <= i,
    ensures
        ({
            let r = acted_all(o, plan_views(plan), row_of_table(table, i), at, n);
            let f = |kind: MergeActionType| how_many(n, |k: int| plan[k].action == kind && fires(plan, table, i, k));
            &&& r.matched == o.matched
            &&& r.skipped == o.skipped + how_many(
                n,
                |k: int| plan[k].action == MergeActionType::Skip || !fires(plan, table, i, k),
            )
            &&& r.updated == o.updated + if at is Missed {
                0
            } else {
                f(MergeActionType::Update)
            }
            &&& r.deleted == o.deleted + if at is Missed {
                0
            } else {
                f(MergeActionType::Delete)
            }
            &&& r.inserted == o.inserted + if at is Missed {
                f(MergeActionType::Insert)
            } else {
                0
            }
        }),
    decreases n,
{
    if n > 0 {
        let k = n - 1;
        lemma_plan_counts(o, plan, table, i, at, k as nat);
        assert(plan_views(plan)[k] == plan[k]@);
        assert(plan[k]@.condition is Some <==> plan[k].condition is Some);
    }
}

/// The counts of a merge. Each source row that has a target row counts as matched.
/// On it the actions of `on_match` are carried out, on one without those of
/// `on_miss`, on a target row without a source row those of `on_miss_target`. An
/// action counts as what it is where it has no condition or its condition holds,
/// and as skipped where its condition does not hold or it says so. Only a row
/// without a target can be inserted, and only one with a target updated or deleted.
pub proof fn merge_counts_its_actions(
    plans: Plans,
    existing: Seq<Json>,
    rows: Seq<Json>,
    matches: Seq<Option<int>>,
)
    requires
        matches.len() == rows.len(),
    ensures
        ({
            let o = planned(plans, existing, rows, matches);
            let left = |j: int, n: nat| if without_source(existing, matches, j) {
                n
            } else {
                0
            };
            let met = |i: int, n: nat| if matches[i] is Some {
                n
            } else {
                0
            };
            let missed = |i: int, n: nat| if matches[i] is Some {
                0
            } else {
                n
            };
            let on_match = |i: int, kind: MergeActionType| fired(plans.on_match@, plans.row_verdicts@, i, kind);
            let on_left = |j: int, kind: MergeActionType|
                fired(plans.on_miss_target@, plans.target_verdicts@, j, kind);
            &&& o.matched == how_many(rows.len(), |i: int| matches[i] is Some)
            &&& o.updated == sum_to(rows.len(), |i: int| met(i, on_match(i, MergeActionType::Update))) + sum_to(
                existing.len(),
                |j: int| left(j, on_left(j, MergeActionType::Update)),
            )
            &&& o.deleted == sum_to(rows.len(), |i: int| met(i, on_match(i, MergeActionType::Delete))) + sum_to(
                existing.len(),
                |j: int| left(j, on_left(j, MergeActionType::Delete)),
            )
            &&& o.inserted == sum_to(
                rows.len(),
                |i: int| missed(i, fired(plans.on_miss@, plans.row_verdicts@, i, MergeActionType::Insert)),
            )
            &&& o.skipped == sum_to(
                rows.len(),
                |i: int|
                    met(i, left_alone(plans.on_match@, plans.row_verdicts@, i)) + missed(
                        i,
                        left_alone(plans.on_miss@, plans.row_verdicts@, i),
                    ),
            ) + sum_to(
                existing.len(),
                |j: int| left(j, left_alone(plans.on_miss_target@, plans.target_verdicts@, j)),
            )
        }),
{
    lemma_source_counts(plans, existing, rows, matches, rows.len());
    let o = after_sources(plans, existing, rows, matches, rows.len());
    lemma_target_counts(o, plans, existing, matches, existing.len());
}

proof fn lemma_source_counts(
    plans: Plans,
    existing: Seq<Json>,
    rows: Seq<Json>,
    matches: Seq<Option<int>>,
    n: nat,
)
    requires
        n <= rows.len(),
        matches.len() == rows.len(),
    ensures
        ({
            let o = after_sources(plans, existing, rows, matches, n);
            let met = |i: int, n: nat| if matches[i] is Some {
                n
            } else {
                0
            };
            let missed = |i: int, n: nat| if matches[i] is Some {
                0
            } else {
                n
            };
            let on_match = |i: int, kind: MergeActionType| fired(plans.on_match@, plans.row_verdicts@, i, kind);
            &&& o.matched == how_many(n, |i: int| matches[i] is Some)
            &&& o.updated == sum_to(n, |i: int| met(i, on_match(i, MergeActionType::Update)))
            &&& o.deleted == sum_to(n, |i: int| met(i, on_match(i, MergeActionType::Delete)))
            &&& o.inserted == sum_to(
                n,
                |i: int| missed(i, fired(plans.on_miss@, plans.row_verdicts@, i, MergeActionType::Insert)),
            )
            &&& o.skipped == sum_to(
                n,
                |i: int|
                    met(i, left_alone(plans.on_match@, plans.row_verdicts@, i)) + missed(
                        i,
                        left_alone(plans.on_miss@, plans.row_verdicts@, i),
                    ),
            )
        }),
    decreases n,
{
    if n > 0 {
        let i = n - 1;
        lemma_source_counts(plans, existing, rows, matches, i as nat);
        let o = after_sources(plans, existing, rows, matches, i as nat);
        match matches[i] {
            Some(j) => {
                lemma_plan_counts(
                    Outcome { matched: o.matched + 1, ..o },
                    plans.on_match@,
                    plans.row_verdicts@,
                    i,
                    Situation::Matched {
                        target: existing[j],
                        source: rows[i],
                        rowid: rowid_or_empty(existing[j]),
                    },
                    plans.on_match@.len(),
                );
            },
            None => {
                lemma_plan_counts(
                    o,
                    plans.on_miss@,
                    plans.row_verdicts@,
                    i,
                    Situation::Missed { source: rows[i] },
                    plans.on_miss@.len(),
                );
            },
        }
    }
}

proof fn lemma_target_counts(
    o: Outcome,
    plans: Plans,
    existing: Seq<Json>,
    matches: Seq<Option<int>>,
    n: nat,
)
    requires
        n <= existing.len(),
    ensures
        ({
            let r = after_targets(o, plans, existing, matches, n);
            let left = |j: int, n: nat| if without_source(existing, matches, j) {
                n
            } else {
                0
            };
            let on_left = |j: int, kind: MergeActionType|
                fired(plans.on_miss_target@, plans.target_verdicts@, j, kind);
            &&& r.matched == o.matched
            &&& r.inserted == o.inserted
            &&& r.updated == o.updated + sum_to(n, |j: int| left(j, on_left(j, MergeActionType::Update)))
            &&& r.deleted == o.deleted + sum_to(n, |j: int| left(j, on_left(j, MergeActionType::Delete)))
            &&& r.skipped == o.skipped + sum_to(
                n,
                |j: int| left(j, left_alone(plans.on_miss_target@, plans.target_verdicts@, j)),
            )
        }),
    decreases n,
{
    if n > 0 {
        let j = n - 1;
        lemma_target_counts(o, plans, existing, matches, j as nat);
        let prev = after_targets(o, plans, existing, matches, j as nat);
        let id = rowid_or_empty(existing[j]);
        assert(id_matched(existing, matches, id) == !without_source(existing, matches, j));
        if !id_matched(existing, matches, id) {
            lemma_plan_counts(
                prev,
                plans.on_miss_target@,
                plans.target_verdicts@,
                j,
                Situation::Left { target: existing[j], rowid: id },
                plans.on_miss_target@.len(),
            );
        }
    }
}

/// Source row `i` has a target row of an id, and an action of the plan deletes it.
pub open spec fn matched_delete(
    plans: Plans,
    existing: Seq<Json>,
    matches: Seq<Option<int>>,
    i: int,
    k: int,
    id: Seq<char>,
) -> bool {
    &&& 0 <= i < matches.len() && 0 <= k < plans.on_match@.len()
    &&& matches[i] is Some && rowid_or_empty(existing[matches[i]->0]) == id
    &&& plans.on_match@[k].action == MergeActionType::Delete
    &&& fires(plans.on_match@, plans.row_verdicts@, i, k)
}

/// Target row `j` of an id has no source row, and an action of the plan deletes it.
pub open spec fn left_delete(
    plans: Plans,
    existing: Seq<Json>,
    matches: Seq<Option<int>>,
    j: int,
    k: int,
    id: Seq<char>,
) -> bool {
    &&& 0 <= j < existing.len() && 0 <= k < plans.on_miss_target@.len()
    &&& without_source(existing, matches, j) && rowid_or_empty(existing[j]) == id
    &&& plans.on_miss_target@[k].action == MergeActionType::Delete
    &&& fires(plans.on_miss_target@, plans.target_verdicts@, j, k)
}

/// The row is what an action writes for source row `i`: an update of the target row
/// under the target's id, or an insert.
pub open spec fn source_write(
    plans: Plans,
    existing: Seq<Json>,
    rows: Seq<Json>,
    matches: Seq<Option<int>>,
    i: int,
    k: int,
    row: Json,
) -> bool {
    &&& 0 <= i < rows.len() && 0 <= k
    &&& match matches[i] {
        Some(j) => {
            &&& k < plans.on_match@.len()
            &&& plans.on_match@[k].action == MergeActionType::Update
            &&& fires(plans.on_match@, plans.row_verdicts@, i, k)
            &&& row == set_row(
                Some(existing[j]),
                rows[i],
                plans.on_match@[k]@.set,
                Some(rowid_or_empty(existing[j])),
            )
        },
        None => {
            &&& k < plans.on_miss@.len()
            &&& plans.on_miss@[k].action == MergeActionType::Insert
            &&& fires(plans.on_miss@, plans.row_verdicts@, i, k)
            &&& row == set_row(None, rows[i], plans.on_miss@[k]@.set, None)
        },
    }
}

/// The row is what an action writes for target row `j`, which has no source row.
pub open spec fn left_write(
    plans: Plans,
    existing: Seq<Json>,
    matches: Seq<Option<int>>,
    j: int,
    k: int,
    row: Json,
) -> bool {
    &&& 0 <= j < existing.len() && 0 <= k < plans.on_miss_target@.len()
    &&& without_source(existing, matches, j)
    &&& plans.on_miss_target@[k].action == MergeActionType::Update
    &&& fires(plans.on_miss_target@, plans.target_verdicts@, j, k)
    &&& row == set_row(
        Some(existing[j]),
        Json::Object(Seq::empty()),
        plans.on_miss_target@[k]@.set,
        Some(rowid_or_empty(existing[j])),
    )
}

proof fn lemma_plan_writes(
    o: Outcome,
    plan: Seq<MergePlanAction>,
    table: Seq<Vec<bool>>,
    i: int,
    at: Situation,
    n: nat,
    id: Seq<char>,
    row: Json,
)
    requires
        n <= plan.len(),
        0 <= i,
    ensures
        ({
            let r = acted_all(o, plan_views(plan), row_of_table(table, i), at, n);
            &&& r.deletes.contains(id) <==> o.deletes.contains(id) || (!(at is Missed) && at_id(at) == id && exists|
                k: int,
            |
                0 <= k < n && (#[trigger] plan[k]).action == MergeActionType::Delete && fires(plan, table, i, k))
            &&& r.upserts.contains(row) <==> o.upserts.contains(row) || exists|k: int|
                0 <= k < n && (#[trigger] plan[k]).action == writing(at) && fires(plan, table, i, k) && row
                    == written_row(at, plan[k]@.set)
        }),
    decreases n,
{
    if n > 0 {
        let k = n - 1;
        lemma_plan_writes(o, plan, table, i, at, k as nat, id, row);
        assert(plan_views(plan)[k] == plan[k]@);
        assert(plan[k]@.condition is Some <==> plan[k].condition is Some);
        let before = acted_all(o, plan_views(plan), row_of_table(table, i), at, k as nat);
        let after = acted_all(o, plan_views(plan), row_of_table(table, i), at, n);
        assert(after == acted(before, plan[k]@, verdict_at(row_of_table(table, i), k), at));
        let f = fires(plan, table, i, k);
        if plan[k].action == MergeActionType::Delete && f && !(at is Missed) {
            assert(after.deletes == before.deletes.push(at_id(at)));
            lemma_push_contains(before.deletes, at_id(at), id);
        } else {
            assert(after.deletes == before.deletes);
        }
        if plan[k].action == writing(at) && f {
            assert(after.upserts == before.upserts.push(written_row(at, plan[k]@.set)));
            lemma_push_contains(before.upserts, written_row(at, plan[k]@.set), row);
        } else {
            assert(after.upserts == before.upserts);
        }
    }
}

pub proof fn lemma_push_contains<A>(s: Seq<A>, x: A, y: A)
    ensures
        s.push(x).contains(y) <==> s.contains(y) || x == y,
{
    if s.contains(y) {
        let i = choose|i: int| 0 <= i < s.len() && s[i] == y;
        assert(s.push(x)[i] == y);
    }
    if x == y {
        assert(s.push(x)[s.len() as int] == y);
    }
    if s.push(x).contains(y) {
        let i = choose|i: int| 0 <= i < s.len() + 1 && s.push(x)[i] == y;
        if i < s.len() {
            assert(s[i] == y);
        }
    }
}

spec fn at_id(at: Situation) -> Seq<char> {
    match at {
        Situation::Matched { rowid, .. } => rowid,
        Situation::Left { rowid, .. } => rowid,
        Situation::Missed { .. } => Seq::empty(),
    }
}

spec fn writing(at: Situation) -> MergeActionType {
    if at is Missed {
        MergeActionType::Insert
    } else {
        MergeActionType::Update
    }
}

spec fn written_row(at: Situation, set: Option<SetView>) -> Json {
    match at {
        Situation::Matched { target, source, rowid } => set_row(Some(target), source, set, Some(rowid)),
        Situation::Left { target, rowid } => set_row(
            Some(target),
            Json::Object(Seq::empty()),
            set,
            Some(rowid),
        ),
        Situation::Missed { source } => set_row(None, source, set, None),
    }
}

proof fn lemma_source_writes(
    plans: Plans,
    existing: Seq<Json>,
    rows: Seq<Json>,
    matches: Seq<Option<int>>,
    n: nat,
    id: Seq<char>,
    row: Json,
)
    requires
        n <= rows.len(),
        matches.len() == rows.len(),
    ensures
        ({
            let o = after_sources(plans, existing, rows, matches, n);
            &&& o.deletes.contains(id) <==> exists|i: int, k: int|
                i < n && #[trigger] matched_delete(plans, existing, matches, i, k, id)
            &&& o.upserts.contains(row) <==> exists|i: int, k: int|
                i < n && #[trigger] source_write(plans, existing, rows, matches, i, k, row)
        }),
    decreases n,
{
    if n > 0 {
        let i = n - 1;
        lemma_source_writes(plans, existing, rows, matches, i as nat, id, row);
        let o = after_sources(plans, existing, rows, matches, i as nat);
        let r = after_sources(plans, existing, rows, matches, n);
        let plan = match matches[i] {
            Some(_) => plans.on_match@,
            None => plans.on_miss@,
        };
        let at = match matches[i] {
            Some(j) => Situation::Matched {
                target: existing[j],
                source: rows[i],
                rowid: rowid_or_empty(existing[j]),
            },
            None => Situation::Missed { source: rows[i] },
        };
        let start = match matches[i] {
            Some(_) => Outcome { matched: o.matched + 1, ..o },
            None => o,
        };
        lemma_plan_writes(start, plan, plans.row_verdicts@, i, at, plan.len(), id, row);
        if r.deletes.contains(id) && !o.deletes.contains(id) {
            let k = choose|k: int|
                0 <= k < plan.len() && (#[trigger] plan[k]).action == MergeActionType::Delete && fires(
                    plan,
                    plans.row_verdicts@,
                    i,
                    k,
                );
            assert(matched_delete(plans, existing, matches, i, k, id));
        }
        if o.deletes.contains(id) {
            let (i2, k2) = choose|i2: int, k2: int|
                i2 < i && #[trigger] matched_delete(plans, existing, matches, i2, k2, id);
            assert(i2 < n && matched_delete(plans, existing, matches, i2, k2, id));
        }
        assert forall|i2: int, k2: int|
            i2 < n && #[trigger] matched_delete(plans, existing, matches, i2, k2, id) implies r.deletes.contains(
            id,
        ) by {
            if i2 == i {
                assert(plan[k2].action == MergeActionType::Delete);
            } else {
                assert(i2 < i);
            }
        }
        if r.upserts.contains(row) && !o.upserts.contains(row) {
            let k = choose|k: int|
                0 <= k < plan.len() && (#[trigger] plan[k]).action == writing(at) && fires(
                    plan,
                    plans.row_verdicts@,
                    i,
                    k,
                ) && row == written_row(at, plan[k]@.set);
            assert(source_write(plans, existing, rows, matches, i, k, row));
        }
        if o.upserts.contains(row) {
            let (i2, k2) = choose|i2: int, k2: int|
                i2 < i && #[trigger] source_write(plans, existing, rows, matches, i2, k2, row);
            assert(i2 < n && source_write(plans, existing, rows, matches, i2, k2, row));
        }
        assert forall|i2: int, k2: int|
            i2 < n && #[trigger] source_write(plans, existing, rows, matches, i2, k2, row) implies r.upserts.contains(
            row,
        ) by {
            if i2 == i {
                assert(plan[k2].action == writing(at));
            } else {
                assert(i2 < i);
            }
        }
    }
}

proof fn lemma_target_writes(
    o: Outcome,
    plans: Plans,
    existing: Seq<Json>,
    matches: Seq<Option<int>>,
    n: nat,
    id: Seq<char>,
    row: Json,
)
    requires
        n <= existing.len(),
    ensures
        ({
            let r = after_targets(o, plans, existing, matches, n);
            &&& r.deletes.contains(id) <==> o.deletes.contains(id) || exists|j: int, k: int|
                j < n && #[trigger] left_delete(plans, existing, matches, j, k, id)
            &&& r.upserts.contains(row) <==> o.upserts.contains(row) || exists|j: int, k: int|
                j < n && #[trigger] left_write(plans, existing, matches, j, k, row)
        }),
    decreases n,
{
    if n > 0 {
        let j = n - 1;
        lemma_target_writes(o, plans, existing, matches, j as nat, id, row);
        let prev = after_targets(o, plans, existing, matches, j as nat);
        let r = after_targets(o, plans, existing, matches, n);
        let own = rowid_or_empty(existing[j]);
        let plan = plans.on_miss_target@;
        let at = Situation::Left { target: existing[j], rowid: own };
        assert(id_matched(existing, matches, own) == !without_source(existing, matches, j));
        lemma_plan_writes(prev, plan, plans.target_verdicts@, j, at, plan.len(), id, row);
        if r.deletes.contains(id) && !prev.deletes.contains(id) {
            let k = choose|k: int|
                0 <= k < plan.len() && (#[trigger] plan[k]).action == MergeActionType::Delete && fires(
                    plan,
                    plans.target_verdicts@,
                    j,
                    k,
                );
            assert(left_delete(plans, existing, matches, j, k, id));
        }
        if prev.deletes.contains(id) && !o.deletes.contains(id) {
            let (j2, k2) = choose|j2: int, k2: int|
                j2 < j && #[trigger] left_delete(plans, existing, matches, j2, k2, id);
            assert(j2 < n && left_delete(plans, existing, matches, j2, k2, id));
        }
        assert forall|j2: int, k2: int|
            j2 < n && #[trigger] left_delete(plans, existing, matches, j2, k2, id) implies r.deletes.contains(
            id,
        ) by {
            if j2 == j {
                assert(plan[k2].action == MergeActionType::Delete);
            } else {
                assert(j2 < j);
            }
        }
        if r.upserts.contains(row) && !prev.upserts.contains(row) {
            let k = choose|k: int|
                0 <= k < plan.len() && (#[trigger] plan[k]).action == writing(at) && fires(
                    plan,
                    plans.target_verdicts@,
                    j,
                    k,
                ) && row == written_row(at, plan[k]@.set);
            assert(left_write(plans, existing, matches, j, k, row));
        }
        if prev.upserts.contains(row) && !o.upserts.contains(row) {
            let (j2, k2) = choose|j2: int, k2: int|
                j2 < j && #[trigger] left_write(plans, existing, matches, j2, k2, row);
            assert(j2 < n && left_write(plans, existing, matches, j2, k2, row));
        }
        assert forall|j2: int, k2: int|
            j2 < n && #[trigger] left_write(plans, existing, matches, j2, k2, row) implies r.upserts.contains(
            row,
        ) by {
            if j2 == j {
                assert(plan[k2].action == writing(at));
            } else {
                assert(j2 < j);
            }
        }
    }
}

/// An id is deleted just where an action that deletes is carried out on its row: one
/// of `on_match` on a source row that has this target, or one of `on_miss_target` on
/// the target row itself where it has no source row.
pub proof fn merge_deletes_what_its_plan_says(
    plans: Plans,
    existing: Seq<Json>,
    rows: Seq<Json>,
    matches: Seq<Option<int>>,
    id: Seq<char>,
)
    requires
        matches.len() == rows.len(),
    ensures
        planned(plans, existing, rows, matches).deletes.contains(id) <==> (exists|i: int, k: int|
            #[trigger] matched_delete(plans, existing, matches, i, k, id)) || (exists|j: int, k: int|
            #[trigger] left_delete(plans, existing, matches, j, k, id)),
{
    lemma_source_writes(plans, existing, rows, matches, rows.len(), id, Json::Null);
    let o = after_sources(plans, existing, rows, matches, rows.len());
    lemma_target_writes(o, plans, existing, matches, existing.len(), id, Json::Null);
    if exists|i: int, k: int| #[trigger] matched_delete(plans, existing, matches, i, k, id) {
        let (i, k) = choose|i: int, k: int| #[trigger] matched_delete(plans, existing, matches, i, k, id);
        assert(i < rows.len() && matched_delete(plans, existing, matches, i, k, id));
    }
    if exists|j: int, k: int| #[trigger] left_delete(plans, existing, matches, j, k, id) {
        let (j, k) = choose|j: int, k: int| #[trigger] left_delete(plans, existing, matches, j, k, id);
        assert(j < existing.len() && left_delete(plans, existing, matches, j, k, id));
    }
}

/// A row is written just where an action that writes it is carried out: an update of
/// `on_match` on a source row that has a target, under the target's id; an insert of
/// `on_miss` on a source row that has none; an update of `on_miss_target` on a target
/// row that has no source row.
pub proof fn merge_writes_what_its_plan_says(
    plans: Plans,
    existing: Seq<Json>,
    rows: Seq<Json>,
    matches: Seq<Option<int>>,
    row: Json,
)
    requires
        matches.len() == rows.len(),
    ensures
        planned(plans, existing, rows, matches).upserts.contains(row) <==> (exists|i: int, k: int|
            #[trigger] source_write(plans, existing, rows, matches, i, k, row)) || (exists|j: int, k: int|
            #[trigger] left_write(plans, existing, matches, j, k, row)),
{
    lemma_source_writes(plans, existing, rows, matches, rows.len(), Seq::empty(), row);
    let o = after_sources(plans, existing, rows, matches, rows.len());
    lemma_target_writes(o, plans, existing, matches, existing.len(), Seq::empty(), row);
    if exists|i: int, k: int| #[trigger] source_write(plans, existing, rows, matches, i, k, row) {
        let (i, k) = choose|i: int, k: int| #[trigger] source_write(plans, existing, rows, matches, i, k, row);
        assert(i < rows.len() && source_write(plans, existing, rows, matches, i, k, row));
    }
    if exists|j: int, k: int| #[trigger] left_write(plans, existing, matches, j, k, row) {
        let (j, k) = choose|j: int, k: int| #[trigger] left_write(plans, existing, matches, j, k, row);
        assert(j < existing.len() && left_write(plans, existing, matches, j, k, row));
    }
}

/// A merge whose actions all have a condition that holds of no row changes nothing.
pub proof fn merge_without_verdicts_changes_nothing(
    plans: Plans,
    existing: Seq<Json>,
    rows: Seq<Json>,
    matches: Seq<Option<int>>,
)
    requires
        matches.len() == rows.len(),
        plans.row_verdicts@.len() == 0,
        plans.target_verdicts@.len() == 0,
        forall|k: int| 0 <= k < plans.on_match@.len() ==> (#[trigger] plans.on_match@[k]).condition is Some,
        forall|k: int| 0 <= k < plans.on_miss@.len() ==> (#[trigger] plans.on_miss@[k]).condition is Some,
        forall|k: int|
            0 <= k < plans.on_miss_target@.len() ==> (#[trigger] plans.on_miss_target@[k]).condition is Some,
    ensures
        planned(plans, existing, rows, matches).upserts.len() == 0,
        planned(plans, existing, rows, matches).deletes.len() == 0,
{
    let o = planned(plans, existing, rows, matches);
    if o.upserts.len() > 0 {
        let row = o.upserts[0];
        assert(o.upserts.contains(row));
        merge_writes_what_its_plan_says(plans, existing, rows, matches, row);
    }
    if o.deletes.len() > 0 {
        let id = o.deletes[0];
        assert(o.deletes.contains(id));
        merge_deletes_what_its_plan_says(plans, existing, rows, matches, id);
    }
}

proof fn lemma_last_match(existing: Seq<Json>, cols: Seq<Seq<char>>, key: Seq<char>, n: nat)
    requires
        n <= existing.len(),
    ensures
        match last_match(existing, cols, key, n) {
            Some(j) => 0 <= j < n && rowid_of(existing[j]) is Some && composite_key(existing[j], cols) == key && forall|
                m: int,
            |
                j < m < n && rowid_of(#[trigger] existing[m]) is Some ==> composite_key(existing[m], cols) != key,
            None => forall|m: int|
                0 <= m < n && rowid_of(#[trigger] existing[m]) is Some ==> composite_key(existing[m], cols) != key,
        },
    decreases n,
{
    if n > 0 {
        lemma_last_match(existing, cols, key, (n - 1) as nat);
    }
}

/// A source row has as its target the last target row with a text as its id and the
/// same key; it has none where there is no such row.
pub proof fn sources_match_by_key(
    existing: Seq<Json>,
    keys: Seq<(String, String)>,
    rows: Seq<Json>,
    i: int,
)
    requires
        0 <= i < rows.len(),
    ensures
        all_matches(existing, keys, rows).len() == rows.len(),
        ({
            let t = Seq::new(keys.len(), |k: int| keys[k].0@);
            let s = Seq::new(keys.len(), |k: int| keys[k].1@);
            let fits = |j: int|
                member(existing[j], "_rowid"@) matches Some(Json::String(_)) && composite_key(existing[j], t)
                    == composite_key(rows[i], s);
            match all_matches(existing, keys, rows)[i] {
                Some(j) => 0 <= j < existing.len() && fits(j) && forall|m: int|
                    j < m < existing.len() ==> !#[trigger] fits(m),
                None => forall|m: int| 0 <= m < existing.len() ==> !#[trigger] fits(m),
            }
        }),
{
    let t = Seq::new(keys.len(), |k: int| keys[k].0@);
    let s = Seq::new(keys.len(), |k: int| keys[k].1@);
    assert(target_cols(keys) =~= t);
    assert(source_cols(keys) =~= s);
    lemma_last_match(existing, t, composite_key(rows[i], s), existing.len());
    assert forall|m: int| 0 <= m < existing.len() implies (rowid_of(#[trigger] existing[m]) is Some) == (member(
        existing[m],
        "_rowid"@,
    ) matches Some(Json::String(_))) by {}
}

} // verus!
