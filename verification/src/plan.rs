//! Carrying out a merge plan.

use vstd::prelude::*;
use vstd::string::*;
use crate::intern::Interner;
use crate::json::{json_views, lemma_object_view, Json, JsonValue};
use crate::merge::{
    all_matches, apply_set_to_row, match_targets, match_views, plan_views, rowid_of, set_row,
    ActionView, MergeActionType, MergePlanAction,
};
use crate::text::{copy_text, text_views};

verus! {

/// What a merge did, by count.
#[derive(Debug, PartialEq)]
pub struct MergeCounts {
    pub matched: usize,
    pub updated: usize,
    pub deleted: usize,
    pub inserted: usize,
    pub skipped: usize,
}

/// What a merge writes: rows to upsert and ids to delete.
#[derive(Debug, PartialEq)]
pub struct MergeOutcome {
    pub to_upsert: Vec<JsonValue>,
    pub to_delete: Vec<String>,
    pub counts: MergeCounts,
}

pub struct Outcome {
    pub upserts: Seq<Json>,
    pub deletes: Seq<Seq<char>>,
    pub matched: nat,
    pub updated: nat,
    pub deleted: nat,
    pub inserted: nat,
    pub skipped: nat,
}

impl View for MergeOutcome {
    type V = Outcome;

    open spec fn view(&self) -> Outcome {
        Outcome {
            upserts: json_views(self.to_upsert@),
            deletes: text_views(self.to_delete@),
            matched: self.counts.matched as nat,
            updated: self.counts.updated as nat,
            deleted: self.counts.deleted as nat,
            inserted: self.counts.inserted as nat,
            skipped: self.counts.skipped as nat,
        }
    }
}

pub open spec fn no_outcome() -> Outcome {
    Outcome {
        upserts: Seq::empty(),
        deletes: Seq::empty(),
        matched: 0,
        updated: 0,
        deleted: 0,
        inserted: 0,
        skipped: 0,
    }
}

/// How many actions have been counted.
pub open spec fn actions_done(o: Outcome) -> nat {
    o.updated + o.deleted + o.inserted + o.skipped
}

/// Where a row stands in a merge.
pub enum Situation {
    /// A source row that matches a target row.
    Matched { target: Json, source: Json, rowid: Seq<char> },
    /// A source row that matches none.
    Missed { source: Json },
    /// A target row that no source row matches.
    Left { target: Json, rowid: Seq<char> },
}

pub open spec fn skipped_one(o: Outcome) -> Outcome {
    Outcome { skipped: o.skipped + 1, ..o }
}

pub open spec fn updated_one(o: Outcome, row: Json) -> Outcome {
    Outcome { upserts: o.upserts.push(row), updated: o.updated + 1, ..o }
}

pub open spec fn deleted_one(o: Outcome, rowid: Seq<char>) -> Outcome {
    Outcome { deletes: o.deletes.push(rowid), deleted: o.deleted + 1, ..o }
}

pub open spec fn inserted_one(o: Outcome, row: Json) -> Outcome {
    Outcome { upserts: o.upserts.push(row), inserted: o.inserted + 1, ..o }
}

/// An empty object.
pub open spec fn empty_row() -> Json {
    Json::Object(Seq::empty())
}

/// One action. An action whose condition does not hold is skipped; an action
/// that makes no sense where the row stands does nothing.
pub open spec fn acted(o: Outcome, a: ActionView, holds: bool, at: Situation) -> Outcome {
    if a.condition is Some && !holds {
        skipped_one(o)
    } else if a.action == MergeActionType::Skip {
        skipped_one(o)
    } else {
        match at {
            Situation::Matched { target, source, rowid } => match a.action {
                MergeActionType::Update => updated_one(
                    o,
                    set_row(Some(target), source, a.set, Some(rowid)),
                ),
                MergeActionType::Delete => deleted_one(o, rowid),
                _ => o,
            },
            Situation::Missed { source } => match a.action {
                MergeActionType::Insert => inserted_one(o, set_row(None, source, a.set, None)),
                _ => o,
            },
            Situation::Left { target, rowid } => match a.action {
                MergeActionType::Update => updated_one(
                    o,
                    set_row(Some(target), empty_row(), a.set, Some(rowid)),
                ),
                MergeActionType::Delete => deleted_one(o, rowid),
                _ => o,
            },
        }
    }
}

pub open spec fn verdict_at(verdicts: Seq<bool>, i: int) -> bool {
    i < verdicts.len() && verdicts[i]
}

/// The first `n` actions of a plan, in order. `verdicts` says of each whether
/// its condition holds.
pub open spec fn acted_all(
    o: Outcome,
    plan: Seq<ActionView>,
    verdicts: Seq<bool>,
    at: Situation,
    n: nat,
) -> Outcome
    decreases n,
{
    if n == 0 {
        o
    } else {
        let i = n - 1;
        acted(acted_all(o, plan, verdicts, at, i as nat), plan[i], verdict_at(verdicts, i), at)
    }
}

pub open spec fn row_of_table(table: Seq<Vec<bool>>, i: int) -> Seq<bool> {
    if i < table.len() {
        table[i]@
    } else {
        Seq::empty()
    }
}

/// The id of a target row; empty where it has none.
pub open spec fn rowid_or_empty(row: Json) -> Seq<char> {
    match rowid_of(row) {
        Some(id) => id,
        None => Seq::empty(),
    }
}

/// The three plans and what is known of their conditions.
pub struct Plans<'a> {
    pub on_match: &'a Vec<MergePlanAction>,
    pub on_miss: &'a Vec<MergePlanAction>,
    pub on_miss_target: &'a Vec<MergePlanAction>,
    /// For each source row, whether the conditions of the plan that applies hold.
    pub row_verdicts: &'a Vec<Vec<bool>>,
    /// For each target row, whether the conditions of `on_miss_target` hold.
    pub target_verdicts: &'a Vec<Vec<bool>>,
}

/// One source row.
pub open spec fn source_step(
    o: Outcome,
    plans: Plans,
    existing: Seq<Json>,
    row: Json,
    m: Option<int>,
    i: int,
) -> Outcome {
    let verdicts = row_of_table(plans.row_verdicts@, i);
    match m {
        Some(j) => acted_all(
            Outcome { matched: o.matched + 1, ..o },
            plan_views(plans.on_match@),
            verdicts,
            Situation::Matched {
                target: existing[j],
                source: row,
                rowid: rowid_or_empty(existing[j]),
            },
            plans.on_match@.len(),
        ),
        None => acted_all(
            o,
            plan_views(plans.on_miss@),
            verdicts,
            Situation::Missed { source: row },
            plans.on_miss@.len(),
        ),
    }
}

/// The first `n` source rows, in order.
pub open spec fn after_sources(
    plans: Plans,
    existing: Seq<Json>,
    rows: Seq<Json>,
    matches: Seq<Option<int>>,
    n: nat,
) -> Outcome
    decreases n,
{
    if n == 0 {
        no_outcome()
    } else {
        let i = n - 1;
        source_step(
            after_sources(plans, existing, rows, matches, i as nat),
            plans,
            existing,
            rows[i],
            matches[i],
            i,
        )
    }
}

/// Whether a source row matched a target row of this id.
pub open spec fn id_matched(existing: Seq<Json>, matches: Seq<Option<int>>, id: Seq<char>) -> bool {
    exists|i: int|
        0 <= i < matches.len() && (#[trigger] matches[i]) is Some && rowid_or_empty(
            existing[matches[i]->0],
        ) == id
}

/// The first `n` target rows, in order, of which those that matched are left
/// alone.
pub open spec fn after_targets(
    o: Outcome,
    plans: Plans,
    existing: Seq<Json>,
    matches: Seq<Option<int>>,
    n: nat,
) -> Outcome
    decreases n,
{
    if n == 0 {
        o
    } else {
        let j = n - 1;
        let prev = after_targets(o, plans, existing, matches, j as nat);
        let id = rowid_or_empty(existing[j]);
        if id_matched(existing, matches, id) {
            prev
        } else {
            acted_all(
                prev,
                plan_views(plans.on_miss_target@),
                row_of_table(plans.target_verdicts@, j),
                Situation::Left { target: existing[j], rowid: id },
                plans.on_miss_target@.len(),
            )
        }
    }
}

/// What a merge does.
pub open spec fn planned(
    plans: Plans,
    existing: Seq<Json>,
    rows: Seq<Json>,
    matches: Seq<Option<int>>,
) -> Outcome {
    after_targets(
        after_sources(plans, existing, rows, matches, rows.len()),
        plans,
        existing,
        matches,
        existing.len(),
    )
}

/// All actions there are can be counted.
pub open spec fn countable(plans: Plans, n_rows: nat, n_existing: nat) -> bool {
    n_rows * (plans.on_match@.len() + plans.on_miss@.len()) + n_existing
        * plans.on_miss_target@.len() <= usize::MAX
}

fn act(
    o: &mut MergeOutcome,
    a: &MergePlanAction,
    holds: bool,
    target: Option<&JsonValue>,
    source: Option<&JsonValue>,
    rowid: &str,
)
    requires
        actions_done(old(o)@) < usize::MAX,
        target is Some || source is Some,
    ensures
        final(o)@ == acted(old(o)@, a@, holds, situation(target, source, rowid@)),
        actions_done(final(o)@) <= actions_done(old(o)@) + 1,
        final(o)@.matched == old(o)@.matched,
{
    let ghost before = o@;
    if a.condition.is_some() && !holds {
        o.counts.skipped = o.counts.skipped + 1;
        return ;
    }
    match a.action {
        MergeActionType::Skip => {
            o.counts.skipped = o.counts.skipped + 1;
        },
        MergeActionType::Update => {
            match target {
                Some(t) => {
                    let none = JsonValue::Object(Vec::new());
                    proof {
                        lemma_object_view(none->Object_0);
                        assert(none@->Object_0 =~= Seq::<(Seq<char>, Json)>::empty());
                    }
                    let s: &JsonValue = match source {
                        Some(s) => s,
                        None => &none,
                    };
                    let row = apply_set_to_row(Some(t), s, &a.set, Some(rowid));
                    let ghost rv = row@;
                    o.to_upsert.push(row);
                    o.counts.updated = o.counts.updated + 1;
                    proof {
                        assert(o@.upserts =~= before.upserts.push(rv));
                    }
                },
                None => {},
            }
        },
        MergeActionType::Delete => {
            if target.is_some() {
                o.to_delete.push(copy_text(rowid));
                o.counts.deleted = o.counts.deleted + 1;
                proof {
                    assert(o@.deletes =~= before.deletes.push(rowid@));
                }
            }
        },
        MergeActionType::Insert => {
            match (target, source) {
                (None, Some(s)) => {
                    let row = apply_set_to_row(None, s, &a.set, None);
                    let ghost rv = row@;
                    o.to_upsert.push(row);
                    o.counts.inserted = o.counts.inserted + 1;
                    proof {
                        assert(o@.upserts =~= before.upserts.push(rv));
                    }
                },
                _ => {},
            }
        },
    }
}

/// Where a row stands, by what is given of it.
pub open spec fn situation(
    target: Option<&JsonValue>,
    source: Option<&JsonValue>,
    rowid: Seq<char>,
) -> Situation {
    match (target, source) {
        (Some(t), Some(s)) => Situation::Matched { target: t@, source: s@, rowid },
        (Some(t), None) => Situation::Left { target: t@, rowid },
        (None, Some(s)) => Situation::Missed { source: s@ },
        _ => Situation::Missed { source: Json::Null },
    }
}

fn act_all(
    o: &mut MergeOutcome,
    plan: &Vec<MergePlanAction>,
    table: &Vec<Vec<bool>>,
    i: usize,
    target: Option<&JsonValue>,
    source: Option<&JsonValue>,
    rowid: &str,
)
    requires
        actions_done(old(o)@) + plan@.len() <= usize::MAX,
        target is Some || source is Some,
    ensures
        final(o)@ == acted_all(
            old(o)@,
            plan_views(plan@),
            row_of_table(table@, i as int),
            situation(target, source, rowid@),
            plan@.len(),
        ),
        actions_done(final(o)@) <= actions_done(old(o)@) + plan@.len(),
        final(o)@.matched == old(o)@.matched,
{
    let ghost start = o@;
    let ghost verdicts = row_of_table(table@, i as int);
    let ghost at = situation(target, source, rowid@);
    let mut k: usize = 0;
    while k < plan.len()
        invariant
            k <= plan@.len(),
            actions_done(start) + plan@.len() <= usize::MAX,
            target is Some || source is Some,
            verdicts == row_of_table(table@, i as int),
            at == situation(target, source, rowid@),
            o@ == acted_all(start, plan_views(plan@), verdicts, at, k as nat),
            actions_done(o@) <= actions_done(start) + k,
            o@.matched == start.matched,
        decreases plan@.len() - k,
    {
        let holds: bool = i < table.len() && k < table[i].len() && table[i][k];
        proof {
            assert(holds == verdict_at(verdicts, k as int));
            assert(plan_views(plan@)[k as int] == plan@[k as int]@);
        }
        act(o, &plan[k], holds, target, source, rowid);
        k = k + 1;
    }
}

fn rowid_text(row: &JsonValue) -> (r: String)
    ensures
        r@ == rowid_or_empty(row@),
{
    match row.get("_rowid") {
        Some(JsonValue::String(s)) => copy_text(s),
        _ => String::new(),
    }
}

/// Carries out a plan on rows whose matches are known.
pub fn plan_merge(
    plans: &Plans,
    existing: &[JsonValue],
    rows: &[JsonValue],
    matches: &Vec<Option<usize>>,
) -> (r: MergeOutcome)
    requires
        matches@.len() == rows@.len(),
        forall|i: int|
            0 <= i < matches@.len() ==> (#[trigger] matches@[i] matches Some(j) ==> j < existing@.len()),
        countable(*plans, rows@.len(), existing@.len()),
    ensures
        r@ == planned(*plans, json_views(existing@), json_views(rows@), match_views(matches@)),
{
    let ghost ev = json_views(existing@);
    let ghost rv = json_views(rows@);
    let ghost mv = match_views(matches@);
    let ghost p = plans.on_match@.len() + plans.on_miss@.len();
    let ghost q = plans.on_miss_target@.len();
    let mut o = MergeOutcome {
        to_upsert: Vec::new(),
        to_delete: Vec::new(),
        counts: MergeCounts { matched: 0, updated: 0, deleted: 0, inserted: 0, skipped: 0 },
    };
    let mut ids = Interner::new();
    let mut i: usize = 0;
    proof {
        assert(o@.upserts =~= Seq::<Json>::empty());
        assert(o@.deletes =~= Seq::<Seq<char>>::empty());
        assert(0 * p == 0) by (nonlinear_arith);
    }
    while i < rows.len()
        invariant
            i <= rows@.len(),
            ev == json_views(existing@),
            rv == json_views(rows@),
            mv == match_views(matches@),
            p == plans.on_match@.len() + plans.on_miss@.len(),
            q == plans.on_miss_target@.len(),
            matches@.len() == rows@.len(),
            forall|k: int|
                0 <= k < matches@.len() ==> (#[trigger] matches@[k] matches Some(j) ==> j
                    < existing@.len()),
            rows@.len() * p + existing@.len() * q <= usize::MAX,
            o@ == after_sources(*plans, ev, rv, mv, i as nat),
            actions_done(o@) <= i * p,
            o@.matched <= i,
            ids.wf(),
            forall|id: Seq<char>|
                #[trigger] ids.keys().contains(id) <==> id_matched(ev, mv.take(i as int), id),
        decreases rows@.len() - i,
    {
        let ghost o0 = o@;
        let ghost keys0 = ids.keys();
        proof {
            assert(rv[i as int] == rows@[i as int]@);
            assert(i * p + p <= rows@.len() * p) by (nonlinear_arith)
                requires i + 1 <= rows@.len(), p >= 0,
            ;
            assert((i + 1) * p == i * p + p) by (nonlinear_arith);
            assert(0 <= existing@.len() * q) by (nonlinear_arith)
                requires existing@.len() >= 0, q >= 0,
            ;
        }
        match matches[i] {
            Some(j) => {
                let rowid = rowid_text(&existing[j]);
                proof {
                    assert(mv[i as int] == Some(j as int));
                    assert(ev[j as int] == existing@[j as int]@);
                }
                if ids.get(&rowid).is_none() {
                    ids.add(&rowid);
                }
                o.counts.matched = o.counts.matched + 1;
                act_all(
                    &mut o,
                    plans.on_match,
                    plans.row_verdicts,
                    i,
                    Some(&existing[j]),
                    Some(&rows[i]),
                    &rowid,
                );
                proof {
                    lemma_ids_grow(ev, mv, i as int, keys0, ids.keys());
                }
            },
            None => {
                proof {
                    assert(mv[i as int] is None);
                }
                act_all(&mut o, plans.on_miss, plans.row_verdicts, i, None, Some(&rows[i]), "");
                proof {
                    lemma_ids_grow(ev, mv, i as int, keys0, ids.keys());
                }
            },
        }
        i = i + 1;
    }
    proof {
        assert(mv.take(i as int) =~= mv);
    }
    let ghost start = o@;
    let mut j: usize = 0;
    proof {
        assert(0 * q == 0) by (nonlinear_arith);
    }
    while j < existing.len()
        invariant
            j <= existing@.len(),
            ev == json_views(existing@),
            q == plans.on_miss_target@.len(),
            rows@.len() * p + existing@.len() * q <= usize::MAX,
            o@ == after_targets(start, *plans, ev, mv, j as nat),
            actions_done(o@) <= rows@.len() * p + j * q,
            ids.wf(),
            forall|id: Seq<char>| #[trigger] ids.keys().contains(id) <==> id_matched(ev, mv, id),
        decreases existing@.len() - j,
    {
        proof {
            assert(ev[j as int] == existing@[j as int]@);
            assert(j * q + q <= existing@.len() * q) by (nonlinear_arith)
                requires j + 1 <= existing@.len(), q >= 0,
            ;
            assert((j + 1) * q == j * q + q) by (nonlinear_arith);
        }
        let rowid = rowid_text(&existing[j]);
        if ids.get(&rowid).is_none() {
            act_all(
                &mut o,
                plans.on_miss_target,
                plans.target_verdicts,
                j,
                Some(&existing[j]),
                None,
                &rowid,
            );
        }
        j = j + 1;
    }
    o
}

/// The matched ids after one more source row.
proof fn lemma_ids_grow(
    ev: Seq<Json>,
    mv: Seq<Option<int>>,
    i: int,
    before: Seq<Seq<char>>,
    after: Seq<Seq<char>>,
)
    requires
        0 <= i < mv.len(),
        forall|id: Seq<char>| #[trigger] before.contains(id) <==> id_matched(ev, mv.take(i), id),
        match mv[i] {
            Some(j) => {
                let new = rowid_or_empty(ev[j]);
                after == if before.contains(new) {
                    before
                } else {
                    before.push(new)
                }
            },
            None => after == before,
        },
    ensures
        forall|id: Seq<char>| #[trigger] after.contains(id) <==> id_matched(ev, mv.take(i + 1), id),
{
    let old_m = mv.take(i);
    let new_m = mv.take(i + 1);
    assert forall|id: Seq<char>| #[trigger] after.contains(id) <==> id_matched(ev, new_m, id) by {
        if id_matched(ev, old_m, id) {
            let k = choose|k: int|
                0 <= k < old_m.len() && (#[trigger] old_m[k]) is Some && rowid_or_empty(
                    ev[old_m[k]->0],
                ) == id;
            assert(new_m[k] == old_m[k]);
            assert(before.contains(id));
            let a = choose|a: int| 0 <= a < before.len() && before[a] == id;
            assert(after[a] == id);
        } else if id_matched(ev, new_m, id) {
            let k = choose|k: int|
                0 <= k < new_m.len() && (#[trigger] new_m[k]) is Some && rowid_or_empty(
                    ev[new_m[k]->0],
                ) == id;
            if k < i {
                assert(old_m[k] == new_m[k]);
            } else {
                assert(!before.contains(id));
                assert(after[before.len() as int] == id);
            }
        } else {
            assert(!before.contains(id));
            if after.contains(id) {
                let a = choose|a: int| 0 <= a < after.len() && after[a] == id;
                if a < before.len() {
                    assert(before[a] == id);
                } else {
                    assert(new_m[i] == mv[i]);
                    assert(new_m[i] is Some);
                }
            }
        }
    }
}

/// Merges source rows into target rows by the given pairs of key columns.
pub fn merge_rows(
    plans: &Plans,
    existing: &[JsonValue],
    rows: &[JsonValue],
    keys: &Vec<(String, String)>,
) -> (r: MergeOutcome)
    requires
        countable(*plans, rows@.len(), existing@.len()),
    ensures
        r@ == planned(
            *plans,
            json_views(existing@),
            json_views(rows@),
            all_matches(json_views(existing@), keys@, json_views(rows@)),
        ),
{
    let matches = match_targets(existing, rows, keys);
    proof {
        let ev = json_views(existing@);
        let rv = json_views(rows@);
        assert(match_views(matches@).len() == all_matches(ev, keys@, rv).len());
        assert forall|i: int| 0 <= i < matches@.len() implies (#[trigger] matches@[i] matches Some(j)
            ==> j < existing@.len()) by {
            crate::merge::lemma_match_in_range(ev, keys@, rv, i);
            assert(match_views(matches@)[i] == all_matches(ev, keys@, rv)[i]);
        }
    }
    plan_merge(plans, existing, rows, &matches)
}

/// A merge writes one row for each update and insert that it counts, and
/// deletes one id for each deletion.
pub proof fn counts_are_writes(
    plans: Plans,
    existing: Seq<Json>,
    rows: Seq<Json>,
    matches: Seq<Option<int>>,
)
    ensures
        ({
            let o = planned(plans, existing, rows, matches);
            o.updated + o.inserted == o.upserts.len() && o.deleted == o.deletes.len()
        }),
{
    lemma_sources_balanced(plans, existing, rows, matches, rows.len());
    lemma_targets_balanced(
        after_sources(plans, existing, rows, matches, rows.len()),
        plans,
        existing,
        matches,
        existing.len(),
    );
}

spec fn balanced(o: Outcome) -> bool {
    o.updated + o.inserted == o.upserts.len() && o.deleted == o.deletes.len()
}

proof fn lemma_acted_balanced(
    o: Outcome,
    plan: Seq<ActionView>,
    verdicts: Seq<bool>,
    at: Situation,
    n: nat,
)
    requires
        balanced(o),
    ensures
        balanced(acted_all(o, plan, verdicts, at, n)),
    decreases n,
{
    if n > 0 {
        lemma_acted_balanced(o, plan, verdicts, at, (n - 1) as nat);
    }
}

proof fn lemma_sources_balanced(
    plans: Plans,
    existing: Seq<Json>,
    rows: Seq<Json>,
    matches: Seq<Option<int>>,
    n: nat,
)
    ensures
        balanced(after_sources(plans, existing, rows, matches, n)),
    decreases n,
{
    if n > 0 {
        let i = n - 1;
        lemma_sources_balanced(plans, existing, rows, matches, i as nat);
        let o = after_sources(plans, existing, rows, matches, i as nat);
        let verdicts = row_of_table(plans.row_verdicts@, i);
        match matches[i] {
            Some(j) => {
                lemma_acted_balanced(
                    Outcome { matched: o.matched + 1, ..o },
                    plan_views(plans.on_match@),
                    verdicts,
                    Situation::Matched {
                        target: existing[j],
                        source: rows[i],
                        rowid: rowid_or_empty(existing[j]),
                    },
                    plans.on_match@.len(),
                );
            },
            None => {
                lemma_acted_balanced(
                    o,
                    plan_views(plans.on_miss@),
                    verdicts,
                    Situation::Missed { source: rows[i] },
                    plans.on_miss@.len(),
                );
            },
        }
    }
}

proof fn lemma_targets_balanced(
    o: Outcome,
    plans: Plans,
    existing: Seq<Json>,
    matches: Seq<Option<int>>,
    n: nat,
)
    requires
        balanced(o),
    ensures
        balanced(after_targets(o, plans, existing, matches, n)),
    decreases n,
{
    if n > 0 {
        let j = n - 1;
        lemma_targets_balanced(o, plans, existing, matches, j as nat);
        let id = rowid_or_empty(existing[j]);
        if !id_matched(existing, matches, id) {
            lemma_acted_balanced(
                after_targets(o, plans, existing, matches, j as nat),
                plan_views(plans.on_miss_target@),
                row_of_table(plans.target_verdicts@, j),
                Situation::Left { target: existing[j], rowid: id },
                plans.on_miss_target@.len(),
            );
        }
    }
}

} // verus!
