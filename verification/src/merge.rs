//! Merging source rows into target rows: which rows match, what each action of
//! the plan does with them, and what is written.

use vstd::prelude::*;
use vstd::string::*;
use crate::infer::{keep_values, masked};
use crate::intern::{place, Interner};
use crate::json::{
    copy_json, field_views, find_key, json_shown, json_text, json_views, key_at, lemma_object_view,
    member, put, put_field, Json, JsonValue,
};
use crate::text::{chars_of, copy_text, push_chars, same_text, text_of, text_views};

verus! {

/// Where an override takes its value from.
#[derive(Debug, PartialEq)]
pub enum ValueSpec {
    /// A column of the source row.
    SourceCol(String),
    /// A column of the target row.
    TargetCol(String),
    /// A fixed value.
    Static(JsonValue),
}

/// Which columns an action sets. With `copy_all`, all source columns first.
#[derive(Debug, PartialEq)]
pub struct SetClause {
    pub copy_all: bool,
    pub columns: Vec<(String, ValueSpec)>,
}

#[derive(Debug, Clone, Copy, PartialEq, Eq, Structural)]
pub enum MergeActionType {
    Update,
    Delete,
    Insert,
    Skip,
}

/// One action of a merge plan. The condition is the text of a WHERE clause.
#[derive(Debug, PartialEq)]
pub struct MergePlanAction {
    pub action: MergeActionType,
    pub condition: Option<String>,
    pub set: Option<SetClause>,
}

pub enum SpecView {
    SourceCol(Seq<char>),
    TargetCol(Seq<char>),
    Static(Json),
}

impl View for ValueSpec {
    type V = SpecView;

    open spec fn view(&self) -> SpecView {
        match self {
            ValueSpec::SourceCol(c) => SpecView::SourceCol(c@),
            ValueSpec::TargetCol(c) => SpecView::TargetCol(c@),
            ValueSpec::Static(v) => SpecView::Static(v@),
        }
    }
}

pub struct SetView {
    pub copy_all: bool,
    pub columns: Seq<(Seq<char>, SpecView)>,
}

impl View for SetClause {
    type V = SetView;

    open spec fn view(&self) -> SetView {
        SetView {
            copy_all: self.copy_all,
            columns: Seq::new(
                self.columns@.len(),
                |i: int| (self.columns@[i].0@, self.columns@[i].1@),
            ),
        }
    }
}

pub open spec fn set_view(set: Option<SetClause>) -> Option<SetView> {
    match set {
        Some(c) => Some(c@),
        None => None,
    }
}

pub struct ActionView {
    pub action: MergeActionType,
    pub condition: Option<Seq<char>>,
    pub set: Option<SetView>,
}

impl View for MergePlanAction {
    type V = ActionView;

    open spec fn view(&self) -> ActionView {
        ActionView {
            action: self.action,
            condition: match self.condition {
                Some(c) => Some(c@),
                None => None,
            },
            set: set_view(self.set),
        }
    }
}

pub open spec fn plan_views(v: Seq<MergePlanAction>) -> Seq<ActionView> {
    Seq::new(v.len(), |i: int| v[i]@)
}

/// The fields of a value; none where it is no object.
pub open spec fn fields_of(v: Json) -> Seq<(Seq<char>, Json)> {
    match v {
        Json::Object(fields) => fields,
        _ => Seq::empty(),
    }
}

/// The columns that carry a row's id, version and deletion mark.
pub open spec fn is_meta(key: Seq<char>) -> bool {
    key == "_rowid"@ || key == "_version"@ || key == "_deleted"@
}

pub fn meta_key(key: &str) -> (r: bool)
    ensures
        r == is_meta(key@),
{
    same_text(key, "_rowid") || same_text(key, "_version") || same_text(key, "_deleted")
}

/// Target columns, under `t.` and under their own names.
pub open spec fn with_target(
    ctx: Seq<(Seq<char>, Json)>,
    fields: Seq<(Seq<char>, Json)>,
) -> Seq<(Seq<char>, Json)>
    decreases fields.len(),
{
    if fields.len() == 0 {
        ctx
    } else {
        let (k, v) = fields.last();
        put(put(with_target(ctx, fields.drop_last()), "t."@ + k, v), k, v)
    }
}

/// Source columns, under `s.`, and under their own names where these are free.
pub open spec fn with_source(
    ctx: Seq<(Seq<char>, Json)>,
    fields: Seq<(Seq<char>, Json)>,
) -> Seq<(Seq<char>, Json)>
    decreases fields.len(),
{
    if fields.len() == 0 {
        ctx
    } else {
        let (k, v) = fields.last();
        let c = put(with_source(ctx, fields.drop_last()), "s."@ + k, v);
        if key_at(c, k) is Some {
            c
        } else {
            put(c, k, v)
        }
    }
}

/// What a condition of a plan sees.
pub open spec fn merge_context(target: Option<Json>, source: Json) -> Json {
    let t = match target {
        Some(row) => with_target(Seq::empty(), fields_of(row)),
        None => Seq::empty(),
    };
    Json::Object(with_source(t, fields_of(source)))
}

/// A text with a prefix before it.
fn prefixed(prefix: &str, key: &str) -> (r: String)
    ensures
        r@ == prefix@ + key@,
{
    let mut out = chars_of(prefix);
    let k = chars_of(key);
    push_chars(&mut out, &k);
    text_of(&out)
}

pub open spec fn opt_json(v: Option<&JsonValue>) -> Option<Json> {
    match v {
        Some(x) => Some(x@),
        None => None,
    }
}

/// Builds what a condition of a plan sees.
pub fn build_merge_context(target: Option<&JsonValue>, source: &JsonValue) -> (r: JsonValue)
    ensures
        r@ == merge_context(opt_json(target), source@),
{
    let mut ctx: Vec<(String, JsonValue)> = Vec::new();
    proof {
        assert(field_views(ctx@) =~= Seq::<(Seq<char>, Json)>::empty());
    }
    if let Some(row) = target {
        if let JsonValue::Object(fields) = row {
            proof {
                lemma_object_view(*fields);
            }
            let ghost all = field_views(fields@);
            let mut i: usize = 0;
            proof {
                assert(all.take(0) =~= Seq::<(Seq<char>, Json)>::empty());
            }
            while i < fields.len()
                invariant
                    i <= fields@.len(),
                    all == field_views(fields@),
                    field_views(ctx@) == with_target(Seq::empty(), all.take(i as int)),
                decreases fields@.len() - i,
            {
                proof {
                    assert(all.take(i as int + 1).drop_last() =~= all.take(i as int));
                    assert(all.take(i as int + 1).last() == all[i as int]);
                }
                let key = prefixed("t.", &fields[i].0);
                put_field(&mut ctx, &key, copy_json(&fields[i].1));
                put_field(&mut ctx, &fields[i].0, copy_json(&fields[i].1));
                i = i + 1;
            }
            proof {
                assert(all.take(i as int) =~= all);
            }
        }
    }
    let ghost base = field_views(ctx@);
    if let JsonValue::Object(fields) = source {
        proof {
            lemma_object_view(*fields);
        }
        let ghost all = field_views(fields@);
        let mut i: usize = 0;
        proof {
            assert(all.take(0) =~= Seq::<(Seq<char>, Json)>::empty());
        }
        while i < fields.len()
            invariant
                i <= fields@.len(),
                all == field_views(fields@),
                field_views(ctx@) == with_source(base, all.take(i as int)),
            decreases fields@.len() - i,
        {
            proof {
                assert(all.take(i as int + 1).drop_last() =~= all.take(i as int));
                assert(all.take(i as int + 1).last() == all[i as int]);
            }
            let key = prefixed("s.", &fields[i].0);
            put_field(&mut ctx, &key, copy_json(&fields[i].1));
            if find_key(&ctx, &fields[i].0).is_none() {
                put_field(&mut ctx, &fields[i].0, copy_json(&fields[i].1));
            }
            i = i + 1;
        }
        proof {
            assert(all.take(i as int) =~= all);
        }
    }
    proof {
        lemma_object_view(ctx);
    }
    JsonValue::Object(ctx)
}

/// The value of an override.
pub open spec fn spec_value(spec: SpecView, target: Option<Json>, source: Json) -> Json {
    let found = match spec {
        SpecView::SourceCol(c) => member(source, c),
        SpecView::TargetCol(c) => match target {
            Some(t) => member(t, c),
            None => None,
        },
        SpecView::Static(v) => Some(v),
    };
    match found {
        Some(v) => v,
        None => Json::Null,
    }
}

/// The overrides, in order.
pub open spec fn overridden(
    base: Seq<(Seq<char>, Json)>,
    columns: Seq<(Seq<char>, SpecView)>,
    target: Option<Json>,
    source: Json,
) -> Seq<(Seq<char>, Json)>
    decreases columns.len(),
{
    if columns.len() == 0 {
        base
    } else {
        let (c, s) = columns.last();
        put(
            overridden(base, columns.drop_last(), target, source),
            c,
            spec_value(s, target, source),
        )
    }
}

/// The fields whose keys are no metadata.
pub open spec fn data_fields(fields: Seq<(Seq<char>, Json)>) -> Seq<(Seq<char>, Json)>
    decreases fields.len(),
{
    if fields.len() == 0 {
        Seq::empty()
    } else {
        let prev = data_fields(fields.drop_last());
        if is_meta(fields.last().0) {
            prev
        } else {
            prev.push(fields.last())
        }
    }
}

/// The row with its id set.
pub open spec fn with_rowid(fields: Seq<(Seq<char>, Json)>, rowid: Option<Seq<char>>) -> Seq<
    (Seq<char>, Json),
> {
    match rowid {
        Some(id) => put(fields, "_rowid"@, Json::String(id)),
        None => fields,
    }
}

/// The row that an action writes. Without a SET clause: the source row. With
/// one: the target row, or with `copy_all` the source's data columns, under
/// the overrides. The row keeps the id of the row it replaces.
pub open spec fn set_row(
    target: Option<Json>,
    source: Json,
    set: Option<SetView>,
    rowid: Option<Seq<char>>,
) -> Json {
    match set {
        None => match source {
            Json::Object(fields) => Json::Object(with_rowid(fields, rowid)),
            _ => source,
        },
        Some(clause) => {
            let base = if clause.copy_all {
                data_fields(fields_of(source))
            } else {
                match target {
                    Some(t) => fields_of(t),
                    None => Seq::empty(),
                }
            };
            Json::Object(
                with_rowid(overridden(base, clause.columns, target, source), rowid),
            )
        },
    }
}

pub open spec fn opt_text(v: Option<&str>) -> Option<Seq<char>> {
    match v {
        Some(s) => Some(s@),
        None => None,
    }
}

fn put_rowid(fields: &mut Vec<(String, JsonValue)>, rowid: Option<&str>)
    ensures
        field_views(final(fields)@) == with_rowid(field_views(old(fields)@), opt_text(rowid)),
{
    if let Some(id) = rowid {
        put_field(fields, "_rowid", JsonValue::String(copy_text(id)));
    }
}

fn copy_fields(row: &JsonValue) -> (r: Vec<(String, JsonValue)>)
    ensures
        field_views(r@) == fields_of(row@),
{
    let c = copy_json(row);
    match c {
        JsonValue::Object(fields) => {
            proof {
                lemma_object_view(fields);
            }
            fields
        },
        _ => {
            let none: Vec<(String, JsonValue)> = Vec::new();
            proof {
                assert(field_views(none@) =~= Seq::<(Seq<char>, Json)>::empty());
            }
            none
        },
    }
}

fn copy_data_fields(row: &JsonValue) -> (r: Vec<(String, JsonValue)>)
    ensures
        field_views(r@) == data_fields(fields_of(row@)),
{
    let mut out: Vec<(String, JsonValue)> = Vec::new();
    proof {
        assert(field_views(out@) =~= Seq::<(Seq<char>, Json)>::empty());
    }
    if let JsonValue::Object(fields) = row {
        proof {
            lemma_object_view(*fields);
        }
        let ghost all = field_views(fields@);
        let mut i: usize = 0;
        proof {
            assert(all.take(0) =~= Seq::<(Seq<char>, Json)>::empty());
        }
        while i < fields.len()
            invariant
                i <= fields@.len(),
                all == field_views(fields@),
                field_views(out@) == data_fields(all.take(i as int)),
            decreases fields@.len() - i,
        {
            proof {
                assert(all.take(i as int + 1).drop_last() =~= all.take(i as int));
                assert(all.take(i as int + 1).last() == all[i as int]);
            }
            if !meta_key(&fields[i].0) {
                let ghost before = field_views(out@);
                out.push((copy_text(&fields[i].0), copy_json(&fields[i].1)));
                proof {
                    assert(field_views(out@) =~= before.push(all[i as int]));
                }
            }
            i = i + 1;
        }
        proof {
            assert(all.take(i as int) =~= all);
        }
    }
    out
}

fn value_of_spec(spec: &ValueSpec, target: Option<&JsonValue>, source: &JsonValue) -> (r: JsonValue)
    ensures
        r@ == spec_value(spec@, opt_json(target), source@),
{
    match spec {
        ValueSpec::SourceCol(c) => match source.get(c) {
            Some(v) => copy_json(v),
            None => JsonValue::Null,
        },
        ValueSpec::TargetCol(c) => match target {
            Some(t) => match t.get(c) {
                Some(v) => copy_json(v),
                None => JsonValue::Null,
            },
            None => JsonValue::Null,
        },
        ValueSpec::Static(v) => copy_json(v),
    }
}

/// Makes the row that an action writes.
pub fn apply_set_to_row(
    target: Option<&JsonValue>,
    source: &JsonValue,
    set: &Option<SetClause>,
    rowid: Option<&str>,
) -> (r: JsonValue)
    ensures
        r@ == set_row(opt_json(target), source@, set_view(*set), opt_text(rowid)),
{
    match set {
        None => {
            match source {
                JsonValue::Object(fields0) => {
                    proof {
                        lemma_object_view(*fields0);
                    }
                    let mut fields = copy_fields(source);
                    put_rowid(&mut fields, rowid);
                    proof {
                        lemma_object_view(fields);
                    }
                    JsonValue::Object(fields)
                },
                _ => copy_json(source),
            }
        },
        Some(clause) => {
            let mut fields: Vec<(String, JsonValue)> = Vec::new();
            proof {
                assert(field_views(fields@) =~= Seq::<(Seq<char>, Json)>::empty());
            }
            if clause.copy_all {
                fields = copy_data_fields(source);
            } else if let Some(t) = target {
                fields = copy_fields(t);
            }
            let ghost base = field_views(fields@);
            let ghost cols = clause@.columns;
            let mut i: usize = 0;
            proof {
                assert(cols.take(0) =~= Seq::<(Seq<char>, SpecView)>::empty());
            }
            while i < clause.columns.len()
                invariant
                    i <= clause.columns@.len(),
                    cols == clause@.columns,
                    field_views(fields@) == overridden(
                        base,
                        cols.take(i as int),
                        opt_json(target),
                        source@,
                    ),
                decreases clause.columns@.len() - i,
            {
                proof {
                    assert(cols.take(i as int + 1).drop_last() =~= cols.take(i as int));
                    assert(cols.take(i as int + 1).last() == cols[i as int]);
                }
                let v = value_of_spec(&clause.columns[i].1, target, source);
                put_field(&mut fields, &clause.columns[i].0, v);
                i = i + 1;
            }
            proof {
                assert(cols.take(i as int) =~= cols);
            }
            put_rowid(&mut fields, rowid);
            proof {
                lemma_object_view(fields);
            }
            JsonValue::Object(fields)
        },
    }
}

/// The JSON text of a cell; empty where there is none.
pub open spec fn cell_text(row: Json, col: Seq<char>) -> Seq<char> {
    match member(row, col) {
        Some(v) => json_shown(v),
        None => Seq::empty(),
    }
}

/// The key that the given columns make: the cells' JSON texts, with a unit
/// separator before each but where nothing stands yet.
pub open spec fn composite_key(row: Json, cols: Seq<Seq<char>>) -> Seq<char>
    decreases cols.len(),
{
    if cols.len() == 0 {
        Seq::empty()
    } else {
        let prev = composite_key(row, cols.drop_last());
        let text = cell_text(row, cols.last());
        if prev.len() == 0 {
            text
        } else {
            prev.push('\u{1f}') + text
        }
    }
}

pub open spec fn target_cols(keys: Seq<(String, String)>) -> Seq<Seq<char>> {
    Seq::new(keys.len(), |i: int| keys[i].0@)
}

pub open spec fn source_cols(keys: Seq<(String, String)>) -> Seq<Seq<char>> {
    Seq::new(keys.len(), |i: int| keys[i].1@)
}

/// Makes a composite key.
pub fn make_key(row: &JsonValue, cols: &Vec<String>) -> (r: String)
    ensures
        r@ == composite_key(row@, text_views(cols@)),
{
    let ghost all = text_views(cols@);
    let mut out: Vec<char> = Vec::new();
    let mut i: usize = 0;
    proof {
        assert(all.take(0) =~= Seq::<Seq<char>>::empty());
    }
    while i < cols.len()
        invariant
            i <= cols@.len(),
            all == text_views(cols@),
            out@ == composite_key(row@, all.take(i as int)),
        decreases cols@.len() - i,
    {
        proof {
            assert(all.take(i as int + 1).drop_last() =~= all.take(i as int));
            assert(all.take(i as int + 1).last() == all[i as int]);
        }
        let text = match row.get(&cols[i]) {
            Some(v) => json_text(v),
            None => String::new(),
        };
        let chars = chars_of(&text);
        if out.len() > 0 {
            out.push('\u{1f}');
        } else {
            proof {
                assert(out@ + chars@ =~= chars@);
            }
        }
        push_chars(&mut out, &chars);
        i = i + 1;
    }
    proof {
        assert(all.take(i as int) =~= all);
    }
    text_of(&out)
}

fn columns_of(keys: &Vec<(String, String)>, target: bool) -> (r: Vec<String>)
    ensures
        text_views(r@) == if target {
            target_cols(keys@)
        } else {
            source_cols(keys@)
        },
{
    let mut out: Vec<String> = Vec::new();
    let mut i: usize = 0;
    let ghost want = if target {
        target_cols(keys@)
    } else {
        source_cols(keys@)
    };
    proof {
        assert(text_views(out@) =~= want.take(0));
    }
    while i < keys.len()
        invariant
            i <= keys@.len(),
            want == if target {
                target_cols(keys@)
            } else {
                source_cols(keys@)
            },
            text_views(out@) == want.take(i as int),
        decreases keys@.len() - i,
    {
        let ghost before = text_views(out@);
        if target {
            out.push(copy_text(&keys[i].0));
        } else {
            out.push(copy_text(&keys[i].1));
        }
        proof {
            assert(text_views(out@) =~= before.push(want[i as int]));
            assert(want.take(i as int + 1) =~= want.take(i as int).push(want[i as int]));
        }
        i = i + 1;
    }
    proof {
        assert(want.take(i as int) =~= want);
    }
    out
}

/// A target row can be matched where it has an id that is a text.
pub open spec fn rowid_of(row: Json) -> Option<Seq<char>> {
    match member(row, "_rowid"@) {
        Some(Json::String(s)) => Some(s),
        _ => None,
    }
}

/// The last of the first `n` target rows that has an id and the given key.
pub open spec fn last_match(
    existing: Seq<Json>,
    cols: Seq<Seq<char>>,
    key: Seq<char>,
    n: nat,
) -> Option<int>
    decreases n,
{
    if n == 0 {
        None
    } else {
        let j = n - 1;
        if rowid_of(existing[j]) is Some && composite_key(existing[j], cols) == key {
            Some(j)
        } else {
            last_match(existing, cols, key, j as nat)
        }
    }
}

/// The target row that a source row matches.
pub open spec fn matched_target(
    existing: Seq<Json>,
    keys: Seq<(String, String)>,
    source: Json,
) -> Option<int> {
    last_match(
        existing,
        target_cols(keys),
        composite_key(source, source_cols(keys)),
        existing.len(),
    )
}

pub open spec fn match_views(v: Seq<Option<usize>>) -> Seq<Option<int>> {
    Seq::new(
        v.len(),
        |i: int|
            match v[i] {
                Some(j) => Some(j as int),
                None => None,
            },
    )
}

/// The target row that each source row matches.
pub open spec fn all_matches(
    existing: Seq<Json>,
    keys: Seq<(String, String)>,
    rows: Seq<Json>,
) -> Seq<Option<int>> {
    Seq::new(rows.len(), |i: int| matched_target(existing, keys, rows[i]))
}

fn has_rowid(row: &JsonValue) -> (r: bool)
    ensures
        r == (rowid_of(row@) is Some),
{
    match row.get("_rowid") {
        Some(JsonValue::String(_)) => true,
        _ => false,
    }
}

proof fn lemma_last_match_bound(
    existing: Seq<Json>,
    cols: Seq<Seq<char>>,
    key: Seq<char>,
    n: nat,
)
    requires
        n <= existing.len(),
    ensures
        last_match(existing, cols, key, n) matches Some(j) ==> 0 <= j < n && rowid_of(existing[j])
            is Some,
    decreases n,
{
    if n > 0 {
        lemma_last_match_bound(existing, cols, key, (n - 1) as nat);
    }
}

/// A match is one of the target rows, and one with an id.
pub proof fn lemma_match_in_range(
    existing: Seq<Json>,
    keys: Seq<(String, String)>,
    rows: Seq<Json>,
    i: int,
)
    requires
        0 <= i < rows.len(),
    ensures
        all_matches(existing, keys, rows)[i] matches Some(j) ==> 0 <= j < existing.len() && rowid_of(
            existing[j],
        ) is Some,
{
    lemma_last_match_bound(
        existing,
        target_cols(keys),
        composite_key(rows[i], source_cols(keys)),
        existing.len(),
    );
}

/// The table's numbers lead to the last target row of each key so far.
spec fn table_ok(
    index: Interner,
    last: Seq<usize>,
    existing: Seq<Json>,
    cols: Seq<Seq<char>>,
    n: nat,
) -> bool {
    &&& index.wf()
    &&& last.len() == index.keys().len()
    &&& forall|key: Seq<char>|
        #[trigger] last_match(existing, cols, key, n) == match place(index.keys(), key) {
            Some(i) => Some(last[i] as int),
            None => None,
        }
}

/// Finds the target row that each source row matches.
pub fn match_targets(
    existing: &[JsonValue],
    rows: &[JsonValue],
    keys: &Vec<(String, String)>,
) -> (r: Vec<Option<usize>>)
    ensures
        match_views(r@) == all_matches(json_views(existing@), keys@, json_views(rows@)),
{
    let t_cols = columns_of(keys, true);
    let s_cols = columns_of(keys, false);
    let ghost ev = json_views(existing@);
    let ghost tc = target_cols(keys@);
    let mut index = Interner::new();
    let mut last: Vec<usize> = Vec::new();
    let mut j: usize = 0;
    while j < existing.len()
        invariant
            j <= existing@.len(),
            ev == json_views(existing@),
            tc == text_views(t_cols@),
            table_ok(index, last@, ev, tc, j as nat),
        decreases existing@.len() - j,
    {
        proof {
            assert(ev[j as int] == existing@[j as int]@);
        }
        if has_rowid(&existing[j]) {
            let key = make_key(&existing[j], &t_cols);
            let ghost old_keys = index.keys();
            let ghost old_last = last@;
            proof {
                index.keys_are_distinct();
            }
            match index.get(&key) {
                Some(i) => {
                    last[i] = j;
                    proof {
                        assert forall|k: Seq<char>|
                            #[trigger] last_match(ev, tc, k, (j + 1) as nat) == match place(
                                index.keys(),
                                k,
                            ) {
                                Some(m) => Some(last@[m] as int),
                                None => None,
                            } by {
                            assert(last_match(ev, tc, k, j as nat) == match place(old_keys, k) {
                                Some(m) => Some(old_last[m] as int),
                                None => None,
                            });
                            if k != key@ {
                                if old_keys.contains(k) {
                                    let m = old_keys.index_of(k);
                                    assert(old_keys[m] == k);
                                    assert(m != i as int);
                                }
                            }
                        }
                    }
                },
                None => {
                    index.add(&key);
                    last.push(j);
                    proof {
                        index.keys_are_distinct();
                        assert forall|k: Seq<char>|
                            #[trigger] last_match(ev, tc, k, (j + 1) as nat) == match place(
                                index.keys(),
                                k,
                            ) {
                                Some(m) => Some(last@[m] as int),
                                None => None,
                            } by {
                            assert(last_match(ev, tc, k, j as nat) == match place(old_keys, k) {
                                Some(m) => Some(old_last[m] as int),
                                None => None,
                            });
                            let n = old_keys.len() as int;
                            assert(index.keys()[n] == key@);
                            if k == key@ {
                                assert(index.keys().contains(k));
                                assert(index.keys().index_of(k) == n);
                            } else if old_keys.contains(k) {
                                let m = old_keys.index_of(k);
                                assert(index.keys()[m] == k);
                                assert(index.keys().contains(k));
                                assert(index.keys().index_of(k) == m);
                            } else if index.keys().contains(k) {
                                let m = index.keys().index_of(k);
                                assert(index.keys()[m] == k);
                                assert(m < n ==> old_keys[m] == k);
                            }
                        }
                    }
                },
            }
        } else {
            proof {
                assert forall|k: Seq<char>|
                    #[trigger] last_match(ev, tc, k, (j + 1) as nat) == match place(index.keys(), k) {
                        Some(m) => Some(last@[m] as int),
                        None => None,
                    } by {
                    assert(last_match(ev, tc, k, (j + 1) as nat) == last_match(ev, tc, k, j as nat));
                }
            }
        }
        j = j + 1;
    }
    let ghost rv = json_views(rows@);
    let ghost want = all_matches(ev, keys@, rv);
    let mut out: Vec<Option<usize>> = Vec::new();
    let mut i: usize = 0;
    proof {
        assert(match_views(out@) =~= want.take(0));
    }
    while i < rows.len()
        invariant
            i <= rows@.len(),
            rv == json_views(rows@),
            ev == json_views(existing@),
            want == all_matches(ev, keys@, rv),
            tc == target_cols(keys@),
            text_views(s_cols@) == source_cols(keys@),
            table_ok(index, last@, ev, tc, existing@.len()),
            match_views(out@) == want.take(i as int),
        decreases rows@.len() - i,
    {
        let key = make_key(&rows[i], &s_cols);
        let ghost before = match_views(out@);
        proof {
            assert(rv[i as int] == rows@[i as int]@);
            assert(want[i as int] == last_match(ev, tc, key@, existing@.len()));
        }
        match index.get(&key) {
            Some(k) => {
                out.push(Some(last[k]));
            },
            None => {
                out.push(None);
            },
        }
        proof {
            assert(match_views(out@) =~= before.push(want[i as int]));
            assert(want.take(i as int + 1) =~= want.take(i as int).push(want[i as int]));
        }
        i = i + 1;
    }
    proof {
        assert(want.take(i as int) =~= want);
    }
    out
}

/// The source rows of a merge: those that its condition holds of.
pub fn merge_source(rows: Vec<JsonValue>, holds: &[bool]) -> (r: Vec<JsonValue>)
    ensures
        r@ == masked(rows@, holds@),
{
    keep_values(rows, holds)
}

} // verus!
