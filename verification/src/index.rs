//! Secondary indexes: what to build, and the keys of a row.

use vstd::prelude::*;
use vstd::string::*;
use crate::json::{field_views, json_parsed, json_shown, json_text, json_views, lemma_array_view, lemma_object_view,
    member, parse_json, Json, JsonNumber, JsonValue, Number};
use crate::text::{char_views, chars_of, copy_text, decimal, decimal_int, is_text, push_chars, same_text, split,
    split_chars, text_of, text_views, write_decimal, write_int};
use crate::where_clause::message;

verus! {

/// The JSON text of a number.
pub open spec fn number_text(n: Number) -> Seq<char> {
    match n {
        Number::Int(i) => decimal_int(i as int),
        Number::UInt(u) => decimal(u as nat),
        Number::Float(_, text) => text,
    }
}

pub fn text_of_number(n: &JsonNumber) -> (r: String)
    ensures
        r@ == number_text(n@),
{
    match n {
        JsonNumber::Int(i) => write_int(*i),
        JsonNumber::UInt(u) => {
            let d = write_decimal(*u);
            text_of(&d)
        },
        JsonNumber::Float(_, text) => copy_text(text),
    }
}

/// The text of a value that can be part of a key.
pub open spec fn key_part(v: Json) -> Option<Seq<char>> {
    match v {
        Json::String(s) => Some(s),
        Json::Number(n) => Some(number_text(n)),
        _ => None,
    }
}

/// The parts that a list gives.
pub open spec fn list_parts(items: Seq<Json>) -> Seq<Seq<char>>
    decreases items.len(),
{
    if items.len() == 0 {
        Seq::empty()
    } else {
        let prev = list_parts(items.drop_last());
        match key_part(items.last()) {
            Some(s) => prev.push(s),
            None => prev,
        }
    }
}

/// The parts that a cell gives: one for a text or a number, one for each such
/// item of a list, none for anything else.
pub open spec fn cell_parts(v: Option<Json>) -> Seq<Seq<char>> {
    match v {
        Some(Json::Array(items)) => list_parts(items),
        Some(x) => match key_part(x) {
            Some(s) => seq![s],
            None => Seq::empty(),
        },
        None => Seq::empty(),
    }
}

/// The parts that a row gives for the key fields.
pub open spec fn row_parts(row: Json, fields: Seq<Seq<char>>) -> Seq<Seq<char>>
    decreases fields.len(),
{
    if fields.len() == 0 {
        Seq::empty()
    } else {
        row_parts(row, fields.drop_last()) + cell_parts(member(row, fields.last()))
    }
}

/// Texts with a separator between them.
pub open spec fn joined_by(parts: Seq<Seq<char>>, sep: Seq<char>) -> Seq<char>
    decreases parts.len(),
{
    if parts.len() == 0 {
        Seq::empty()
    } else if parts.len() == 1 {
        parts[0]
    } else {
        joined_by(parts.drop_last(), sep) + sep + parts.last()
    }
}

/// The keys of a row: several parts make one composite key.
pub open spec fn keys_of_row(row: Json, fields: Seq<Seq<char>>) -> Seq<Seq<char>> {
    let parts = row_parts(row, fields);
    if parts.len() > 1 {
        seq![joined_by(parts, seq!['\u{1f}'])]
    } else {
        parts
    }
}

fn push_part(out: &mut Vec<String>, v: &JsonValue)
    ensures
        text_views(final(out)@) == (match key_part(v@) {
            Some(s) => text_views(old(out)@).push(s),
            None => text_views(old(out)@),
        }),
{
    let ghost before = text_views(out@);
    match v {
        JsonValue::String(s) => {
            out.push(copy_text(s));
            proof {
                assert(text_views(out@) =~= before.push(s@));
            }
        },
        JsonValue::Number(n) => {
            let t = text_of_number(n);
            let ghost tv = t@;
            out.push(t);
            proof {
                assert(text_views(out@) =~= before.push(tv));
            }
        },
        _ => {},
    }
}

/// Joins texts with a separator.
pub fn join_texts(parts: &Vec<String>, sep: &[char]) -> (r: String)
    ensures
        r@ == joined_by(text_views(parts@), sep@),
{
    let ghost all = text_views(parts@);
    let mut out: Vec<char> = Vec::new();
    let mut i: usize = 0;
    proof {
        assert(all.take(0) =~= Seq::<Seq<char>>::empty());
    }
    while i < parts.len()
        invariant
            i <= parts@.len(),
            all == text_views(parts@),
            out@ == joined_by(all.take(i as int), sep@),
        decreases parts@.len() - i,
    {
        let ghost before = out@;
        proof {
            assert(all.take(i as int + 1).drop_last() =~= all.take(i as int));
            assert(all.take(i as int + 1).last() == all[i as int]);
        }
        if i > 0 {
            push_chars(&mut out, sep);
        }
        let c = chars_of(&parts[i]);
        push_chars(&mut out, &c);
        proof {
            if i == 0 {
                assert(out@ =~= c@);
            } else {
                assert(out@ =~= before + sep@ + c@);
            }
        }
        i = i + 1;
    }
    proof {
        assert(all.take(i as int) =~= all);
    }
    text_of(&out)
}

/// Makes the keys of a row.
pub fn index_keys(row: &JsonValue, key_fields: &Vec<String>) -> (r: Vec<String>)
    ensures
        text_views(r@) == keys_of_row(row@, text_views(key_fields@)),
{
    let ghost all = text_views(key_fields@);
    let mut parts: Vec<String> = Vec::new();
    let mut i: usize = 0;
    proof {
        assert(all.take(0) =~= Seq::<Seq<char>>::empty());
        assert(text_views(parts@) =~= Seq::<Seq<char>>::empty());
    }
    while i < key_fields.len()
        invariant
            i <= key_fields@.len(),
            all == text_views(key_fields@),
            text_views(parts@) == row_parts(row@, all.take(i as int)),
        decreases key_fields@.len() - i,
    {
        let ghost start = text_views(parts@);
        proof {
            assert(all.take(i as int + 1).drop_last() =~= all.take(i as int));
            assert(all.take(i as int + 1).last() == all[i as int]);
            assert(start + Seq::<Seq<char>>::empty() =~= start);
        }
        match row.get(&key_fields[i]) {
            Some(v) => match v {
                JsonValue::Array(items) => {
                    proof {
                        lemma_array_view(*items);
                    }
                    let ghost iv = json_views(items@);
                    let mut k: usize = 0;
                    proof {
                        assert(iv.take(0) =~= Seq::<Json>::empty());
                    }
                    while k < items.len()
                        invariant
                            k <= items@.len(),
                            iv == json_views(items@),
                            text_views(parts@) == start + list_parts(iv.take(k as int)),
                        decreases items@.len() - k,
                    {
                        proof {
                            assert(iv.take(k as int + 1).drop_last() =~= iv.take(k as int));
                            assert(iv.take(k as int + 1).last() == items@[k as int]@);
                        }
                        let ghost lp = list_parts(iv.take(k as int));
                        push_part(&mut parts, &items[k]);
                        proof {
                            match key_part(items@[k as int]@) {
                                Some(s) => {
                                    assert(start + lp.push(s) =~= (start + lp).push(s));
                                },
                                None => {},
                            }
                        }
                        k = k + 1;
                    }
                    proof {
                        assert(iv.take(k as int) =~= iv);
                    }
                },
                _ => {
                    push_part(&mut parts, v);
                    proof {
                        match key_part(v@) {
                            Some(s) => {
                                assert(start + seq![s] =~= start.push(s));
                            },
                            None => {},
                        }
                    }
                },
            },
            None => {},
        }
        i = i + 1;
    }
    proof {
        assert(all.take(i as int) =~= all);
    }
    if parts.len() > 1 {
        let mut sep: Vec<char> = Vec::new();
        sep.push('\u{1f}');
        proof {
            assert(sep@ =~= seq!['\u{1f}']);
        }
        let key = join_texts(&parts, &sep);
        let ghost kv = key@;
        let mut out: Vec<String> = Vec::new();
        out.push(key);
        proof {
            assert(text_views(out@) =~= seq![kv]);
        }
        out
    } else {
        parts
    }
}

/// Whether a composite key has a component.
pub open spec fn has_component(key: Seq<char>, part: Seq<char>) -> bool {
    split(key, '\u{1f}').contains(part)
}

/// Whether some composite key of an index has a component. Where none has, no
/// row can match.
pub fn composite_index_has(keys: &[String], part: &str) -> (r: bool)
    ensures
        r == some_key_has(keys@, part@),
{
    let mut i: usize = 0;
    while i < keys.len()
        invariant
            i <= keys@.len(),
            forall|k: int| 0 <= k < i ==> !has_component((#[trigger] keys@[k])@, part@),
        decreases keys@.len() - i,
    {
        let chars = chars_of(&keys[i]);
        let parts = split_chars(&chars, '\u{1f}');
        let ghost pv = char_views(parts@);
        let mut j: usize = 0;
        while j < parts.len()
            invariant
                j <= parts@.len(),
                i < keys@.len(),
                pv == char_views(parts@),
                pv == split(keys@[i as int]@, '\u{1f}'),
                forall|k: int| 0 <= k < j ==> #[trigger] pv[k] != part@,
            decreases parts@.len() - j,
        {
            if is_text(&parts[j], part) {
                proof {
                    assert(pv[j as int] == part@);
                    assert(has_component(keys@[i as int]@, part@));
                }
                return true;
            }
            proof {
                assert(pv[j as int] != part@);
            }
            j = j + 1;
        }
        i = i + 1;
    }
    false
}

/// An index to build.
#[derive(Debug, PartialEq)]
pub enum IndexPlan {
    Simple { key_fields: Vec<String> },
    Ivf { n_clusters: u64, metric: String },
    Hnsw { m: u64, ef_construction: u64, metric: String },
}

pub enum PlanView {
    Simple { key_fields: Seq<Seq<char>> },
    Ivf { n_clusters: u64, metric: Seq<char> },
    Hnsw { m: u64, ef_construction: u64, metric: Seq<char> },
}

impl View for IndexPlan {
    type V = PlanView;

    open spec fn view(&self) -> PlanView {
        match self {
            IndexPlan::Simple { key_fields } => PlanView::Simple {
                key_fields: text_views(key_fields@),
            },
            IndexPlan::Ivf { n_clusters, metric } => PlanView::Ivf {
                n_clusters: *n_clusters,
                metric: metric@,
            },
            IndexPlan::Hnsw { m, ef_construction, metric } => PlanView::Hnsw {
                m: *m,
                ef_construction: *ef_construction,
                metric: metric@,
            },
        }
    }
}

/// A number that is whole and not negative.
pub open spec fn u64_of(v: Json) -> Option<u64> {
    match v {
        Json::Number(Number::Int(i)) => if i >= 0 {
            Some(i as u64)
        } else {
            None
        },
        Json::Number(Number::UInt(u)) => Some(u),
        _ => None,
    }
}

pub open spec fn setting(config: Option<Json>, key: Seq<char>) -> Option<Json> {
    match config {
        Some(c) => member(c, key),
        None => None,
    }
}

pub open spec fn number_setting(config: Option<Json>, key: Seq<char>, default: u64) -> u64 {
    match setting(config, key) {
        Some(v) => match u64_of(v) {
            Some(n) => n,
            None => default,
        },
        None => default,
    }
}

pub open spec fn text_setting(config: Option<Json>, key: Seq<char>, default: Seq<char>) -> Seq<char> {
    match setting(config, key) {
        Some(Json::String(s)) => s,
        _ => default,
    }
}

/// The texts of a list.
pub open spec fn texts_in(items: Seq<Json>) -> Seq<Seq<char>>
    decreases items.len(),
{
    if items.len() == 0 {
        Seq::empty()
    } else {
        let prev = texts_in(items.drop_last());
        match items.last() {
            Json::String(s) => prev.push(s),
            _ => prev,
        }
    }
}

/// The key fields of a simple index: `key_fields`, `key_field`, else `id`.
pub open spec fn key_fields_of(config: Option<Json>) -> Seq<Seq<char>> {
    match setting(config, "key_fields"@) {
        Some(Json::Array(items)) => texts_in(items),
        _ => match setting(config, "key_field"@) {
            Some(Json::String(s)) => seq![s],
            _ => seq!["id"@],
        },
    }
}

/// The index that a type and a configuration ask for.
pub open spec fn index_plan(index_type: Seq<char>, config: Option<Json>) -> Result<PlanView, Seq<char>> {
    if index_type == "simple"@ {
        Ok(PlanView::Simple { key_fields: key_fields_of(config) })
    } else if index_type == "ivf"@ {
        Ok(
            PlanView::Ivf {
                n_clusters: number_setting(config, "n_clusters"@, 10),
                metric: text_setting(config, "metric"@, "euclidean"@),
            },
        )
    } else if index_type == "hnsw"@ {
        Ok(
            PlanView::Hnsw {
                m: number_setting(config, "m"@, 16),
                ef_construction: number_setting(config, "ef_construction"@, 200),
                metric: text_setting(config, "metric"@, "l2"@),
            },
        )
    } else {
        Err("Unknown index type: '"@ + index_type + "'. Supported: simple, ivf, hnsw"@)
    }
}

pub open spec fn config_view(config: Option<&JsonValue>) -> Option<Json> {
    match config {
        Some(c) => Some(c@),
        None => None,
    }
}

fn get_number(config: Option<&JsonValue>, key: &str, default: u64) -> (r: u64)
    ensures
        r == number_setting(config_view(config), key@, default),
{
    match config {
        Some(c) => match c.get(key) {
            Some(JsonValue::Number(JsonNumber::Int(i))) => if *i >= 0 {
                *i as u64
            } else {
                default
            },
            Some(JsonValue::Number(JsonNumber::UInt(u))) => *u,
            _ => default,
        },
        None => default,
    }
}

fn get_text(config: Option<&JsonValue>, key: &str, default: &str) -> (r: String)
    ensures
        r@ == text_setting(config_view(config), key@, default@),
{
    match config {
        Some(c) => match c.get(key) {
            Some(JsonValue::String(s)) => copy_text(s),
            _ => default.to_owned(),
        },
        None => default.to_owned(),
    }
}

/// The texts of a list of values.
pub fn texts_of_list(items: &Vec<JsonValue>) -> (r: Vec<String>)
    ensures
        text_views(r@) == texts_in(json_views(items@)),
{
    let ghost all = json_views(items@);
    let mut out: Vec<String> = Vec::new();
    let mut i: usize = 0;
    proof {
        assert(all.take(0) =~= Seq::<Json>::empty());
        assert(text_views(out@) =~= Seq::<Seq<char>>::empty());
    }
    while i < items.len()
        invariant
            i <= items@.len(),
            all == json_views(items@),
            text_views(out@) == texts_in(all.take(i as int)),
        decreases items@.len() - i,
    {
        let ghost before = text_views(out@);
        proof {
            assert(all.take(i as int + 1).drop_last() =~= all.take(i as int));
            assert(all.take(i as int + 1).last() == items@[i as int]@);
        }
        if let JsonValue::String(s) = &items[i] {
            out.push(copy_text(s));
            proof {
                assert(text_views(out@) =~= before.push(s@));
            }
        }
        i = i + 1;
    }
    proof {
        assert(all.take(i as int) =~= all);
    }
    out
}

fn one_text(s: &str) -> (r: Vec<String>)
    ensures
        text_views(r@) == seq![s@],
{
    let mut out: Vec<String> = Vec::new();
    out.push(s.to_owned());
    proof {
        assert(text_views(out@) =~= seq![s@]);
    }
    out
}

fn get_key_fields(config: Option<&JsonValue>) -> (r: Vec<String>)
    ensures
        text_views(r@) == key_fields_of(config_view(config)),
{
    match config {
        Some(c) => match c.get("key_fields") {
            Some(JsonValue::Array(items)) => {
                proof {
                    lemma_array_view(*items);
                }
                texts_of_list(items)
            },
            _ => match c.get("key_field") {
                Some(JsonValue::String(s)) => one_text(s),
                _ => one_text("id"),
            },
        },
        None => one_text("id"),
    }
}

/// Plans the index that a type and a configuration ask for.
pub fn build_index(index_type: &str, config: Option<&JsonValue>) -> (r: Result<IndexPlan, String>)
    ensures
        match r {
            Ok(p) => index_plan(index_type@, config_view(config)) == Ok::<PlanView, Seq<char>>(p@),
            Err(e) => index_plan(index_type@, config_view(config)) == Err::<PlanView, Seq<char>>(e@),
        },
{
    if same_text(index_type, "simple") {
        Ok(IndexPlan::Simple { key_fields: get_key_fields(config) })
    } else if same_text(index_type, "ivf") {
        Ok(
            IndexPlan::Ivf {
                n_clusters: get_number(config, "n_clusters", 10),
                metric: get_text(config, "metric", "euclidean"),
            },
        )
    } else if same_text(index_type, "hnsw") {
        Ok(
            IndexPlan::Hnsw {
                m: get_number(config, "m", 16),
                ef_construction: get_number(config, "ef_construction", 200),
                metric: get_text(config, "metric", "l2"),
            },
        )
    } else {
        let chars = chars_of(index_type);
        Err(message("Unknown index type: '", &chars, "'. Supported: simple, ivf, hnsw"))
    }
}

/// What an index is asked for: the text of a text or of a number, and the JSON
/// text of any other value.
pub open spec fn lookup_key(v: Json) -> Seq<char> {
    match key_part(v) {
        Some(s) => s,
        None => json_shown(v),
    }
}

/// The key to ask an index for.
pub fn key_of_value(v: &JsonValue) -> (r: String)
    ensures
        r@ == lookup_key(v@),
{
    match v {
        JsonValue::String(s) => copy_text(s),
        JsonValue::Number(n) => text_of_number(n),
        _ => json_text(v),
    }
}

/// The keys of an object of texts; nothing where some value is no text.
pub open spec fn keys_of_texts(fields: Seq<(Seq<char>, Json)>) -> Option<Seq<Seq<char>>> {
    if forall|i: int| 0 <= i < fields.len() ==> (#[trigger] fields[i]).1 is String {
        Some(Seq::new(fields.len(), |i: int| fields[i].0))
    } else {
        None
    }
}

/// The keys of an index on several columns, from its blob: a JSON object of texts.
pub fn composite_index_keys(data: &[u8]) -> (r: Option<Vec<String>>)
    ensures
        opt_text_views(r) == (match json_parsed(data@) {
            Ok(Json::Object(fields)) => keys_of_texts(fields),
            _ => None,
        }),
{
    match parse_json(data) {
        Ok(JsonValue::Object(fields)) => {
            proof {
                lemma_object_view(fields);
            }
            let ghost all = field_views(fields@);
            let mut out: Vec<String> = Vec::new();
            let mut i: usize = 0;
            proof {
                assert(text_views(out@) =~= Seq::new(0, |k: int| all[k].0));
            }
            while i < fields.len()
                invariant
                    i <= fields@.len(),
                    all == field_views(fields@),
                    json_parsed(data@) == Ok::<Json, Seq<char>>(Json::Object(all)),
                    forall|k: int| 0 <= k < i ==> (#[trigger] all[k]).1 is String,
                    text_views(out@) == Seq::new(i as nat, |k: int| all[k].0),
                decreases fields@.len() - i,
            {
                let ghost before = text_views(out@);
                proof {
                    assert(all[i as int] == (fields@[i as int].0@, fields@[i as int].1@));
                }
                match &fields[i].1 {
                    JsonValue::String(_) => {},
                    _ => {
                        proof {
                            assert(!(all[i as int].1 is String));
                        }
                        return None;
                    },
                }
                out.push(copy_text(&fields[i].0));
                proof {
                    assert(text_views(out@) =~= before.push(all[i as int].0));
                    assert(text_views(out@) =~= Seq::new(i as nat + 1, |k: int| all[k].0));
                }
                i = i + 1;
            }
            Some(out)
        },
        _ => None,
    }
}

pub open spec fn opt_text_views(v: Option<Vec<String>>) -> Option<Seq<Seq<char>>> {
    match v {
        Some(x) => Some(text_views(x@)),
        None => None,
    }
}

/// What an index on a predicate's column answered.
pub enum IndexProbe {
    /// An index on this column alone: whether it has the key.
    Single(bool),
    /// An index on several columns: all its keys.
    Composite(Vec<String>),
}

pub open spec fn some_key_has(keys: Seq<String>, part: Seq<char>) -> bool {
    exists|i: int| 0 <= i < keys.len() && has_component((#[trigger] keys[i])@, part)
}

/// Whether an index shows that no row meets a predicate.
pub open spec fn excluded(op: Seq<char>, value: Json, probe: IndexProbe) -> bool {
    (op == "="@ || op == "=="@) && match probe {
        IndexProbe::Single(found) => !found,
        IndexProbe::Composite(keys) => !some_key_has(keys@, lookup_key(value)),
    }
}

/// Tells whether an index shows that no row meets a predicate.
pub fn index_excludes(op: &str, value: &JsonValue, probe: &IndexProbe) -> (r: bool)
    ensures
        r == excluded(op@, value@, *probe),
{
    if !same_text(op, "=") && !same_text(op, "==") {
        return false;
    }
    match probe {
        IndexProbe::Single(found) => !*found,
        IndexProbe::Composite(keys) => {
            let key = key_of_value(value);
            !composite_index_has(keys, &key)
        },
    }
}

proof fn lemma_split_joined(a: Seq<char>, sep: char, b: Seq<char>)
    ensures
        split(a.push(sep) + b, sep) == split(a, sep) + split(b, sep),
        split(b, sep).len() > 0,
    decreases b.len(),
{
    let s = a.push(sep) + b;
    if b.len() == 0 {
        assert(s =~= a.push(sep));
        assert(s.drop_last() =~= a);
        assert(split(s, sep) =~= split(a, sep) + split(b, sep));
    } else {
        let t = b.drop_last();
        lemma_split_joined(a, sep, t);
        assert(s.drop_last() =~= a.push(sep) + t);
        assert(s.last() == b.last());
        let left = split(a, sep);
        let right = split(t, sep);
        assert((left + right).last() == right.last());
        assert((left + right).drop_last() =~= left + right.drop_last());
        assert(split(s, sep) =~= left + split(b, sep));
    }
}

proof fn lemma_split_whole(s: Seq<char>, sep: char)
    requires
        !s.contains(sep),
    ensures
        split(s, sep) == seq![s],
    decreases s.len(),
{
    if s.len() > 0 {
        let t = s.drop_last();
        assert(!t.contains(sep)) by {
            if t.contains(sep) {
                let k = choose|k: int| 0 <= k < t.len() && t[k] == sep;
                assert(s[k] == sep);
            }
        }
        lemma_split_whole(t, sep);
        assert(s[s.len() - 1] == s.last());
        assert(t.push(s.last()) =~= s);
        assert(split(s, sep) =~= seq![s]);
    } else {
        assert(s =~= Seq::<char>::empty());
    }
}

proof fn lemma_component_of_joined(parts: Seq<Seq<char>>, k: int)
    requires
        0 <= k < parts.len(),
        !parts[k].contains('\u{1f}'),
    ensures
        has_component(joined_by(parts, seq!['\u{1f}']), parts[k]),
    decreases parts.len(),
{
    let sep = seq!['\u{1f}'];
    let whole = joined_by(parts, sep);
    lemma_split_whole(parts[k], '\u{1f}');
    if parts.len() == 1 {
        assert(split(whole, '\u{1f}')[0] == parts[k]);
    } else {
        let head = joined_by(parts.drop_last(), sep);
        let last = parts.last();
        assert(whole =~= head.push('\u{1f}') + last);
        lemma_split_joined(head, '\u{1f}', last);
        let left = split(head, '\u{1f}');
        let right = split(last, '\u{1f}');
        if k == parts.len() - 1 {
            assert((left + right)[left.len() as int] == parts[k]);
        } else {
            lemma_component_of_joined(parts.drop_last(), k);
            assert(parts.drop_last()[k] == parts[k]);
            let m = choose|m: int| 0 <= m < left.len() && left[m] == parts[k];
            assert((left + right)[m] == parts[k]);
        }
    }
}

proof fn lemma_cell_among_parts(row: Json, fields: Seq<Seq<char>>, f: int, p: int)
    requires
        0 <= f < fields.len(),
        0 <= p < cell_parts(member(row, fields[f])).len(),
    ensures
        row_parts(row, fields).contains(cell_parts(member(row, fields[f]))[p]),
    decreases fields.len(),
{
    let prev = row_parts(row, fields.drop_last());
    let mine = cell_parts(member(row, fields.last()));
    let all = prev + mine;
    assert(row_parts(row, fields) == all);
    if f == fields.len() - 1 {
        assert(all[prev.len() + p] == mine[p]);
    } else {
        lemma_cell_among_parts(row, fields.drop_last(), f, p);
        let x = cell_parts(member(row, fields[f]))[p];
        let m = choose|m: int| 0 <= m < prev.len() && prev[m] == x;
        assert(all[m] == x);
    }
}

/// An index never hides a row: where an index on several columns holds the key
/// of a row, a text or number in one of its columns is not excluded. The
/// separator must not occur in the text.
pub proof fn index_keeps_its_rows(
    row: Json,
    fields: Seq<Seq<char>>,
    f: int,
    op: Seq<char>,
    value: Json,
    keys: Vec<String>,
    i: int,
)
    requires
        0 <= f < fields.len(),
        member(row, fields[f]) == Some(value),
        key_part(value) is Some,
        !lookup_key(value).contains('\u{1f}'),
        0 <= i < keys@.len(),
        keys@[i]@ == keys_of_row(row, fields)[0],
    ensures
        keys_of_row(row, fields).len() == 1,
        !excluded(op, value, IndexProbe::Composite(keys)),
{
    let parts = row_parts(row, fields);
    let x = lookup_key(value);
    assert(cell_parts(Some(value)) =~= seq![x]);
    lemma_cell_among_parts(row, fields, f, 0);
    let k = choose|k: int| 0 <= k < parts.len() && parts[k] == x;
    if parts.len() > 1 {
        lemma_component_of_joined(parts, k);
    } else {
        assert(keys@[i]@ == x);
        lemma_component_of_joined(seq![x], 0);
        assert(joined_by(seq![x], seq!['\u{1f}']) =~= x);
    }
    assert(has_component(keys@[i]@, x));
}

/// An index never hides a row: where an index on one column holds the key of a row,
/// a text or number in that column is not excluded.
pub proof fn single_index_keeps_its_rows(
    row: Json,
    field: Seq<char>,
    op: Seq<char>,
    value: Json,
    keys: Set<Seq<char>>,
)
    requires
        member(row, field) == Some(value),
        key_part(value) is Some,
        keys.contains(keys_of_row(row, seq![field])[0]),
    ensures
        keys_of_row(row, seq![field]) == seq![lookup_key(value)],
        !excluded(op, value, IndexProbe::Single(keys.contains(lookup_key(value)))),
{
    let x = lookup_key(value);
    let fields = seq![field];
    assert(cell_parts(Some(value)) =~= seq![x]);
    assert(fields.drop_last() =~= Seq::<Seq<char>>::empty());
    assert(row_parts(row, fields.drop_last()) =~= Seq::<Seq<char>>::empty());
    assert(fields.last() == field);
    assert(row_parts(row, fields) == row_parts(row, fields.drop_last()) + seq![x]);
    assert(row_parts(row, fields) =~= seq![x]);
}

} // verus!
