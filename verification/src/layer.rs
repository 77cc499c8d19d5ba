//! Semantic layers: what a layer is made of, where its parts are kept, and how
//! they are read back.

use vstd::prelude::*;
use vstd::string::*;
use crate::index::{texts_in, texts_of_list};
use crate::json::{
    copy_json, field_views, json_views, lemma_array_view, lemma_key_at, lemma_object_view, member,
    put, put_field, put_then_lookup, Json, JsonValue,
};
use crate::text::{chars_of, copy_chars, copy_text, find, first_at, has_prefix, push_chars, same_text, starts_with,
    text_of, text_views};
use crate::where_clause::message;

verus! {

/// A semantic layer: its name and its metadata.
#[derive(Debug, PartialEq)]
pub struct SemanticLayer {
    pub name: String,
    pub meta: JsonValue,
}

/// Texts as a JSON list.
pub open spec fn text_list(texts: Seq<Seq<char>>) -> Json {
    Json::Array(Seq::new(texts.len(), |i: int| Json::String(texts[i])))
}

/// The fields without a key.
pub open spec fn without(fields: Seq<(Seq<char>, Json)>, key: Seq<char>) -> Seq<(Seq<char>, Json)>
    decreases fields.len(),
{
    if fields.len() == 0 {
        Seq::empty()
    } else {
        let prev = without(fields.drop_last(), key);
        if fields.last().0 == key {
            prev
        } else {
            prev.push(fields.last())
        }
    }
}

/// The metadata of a new layer.
pub open spec fn new_meta(name: Seq<char>, adapters: Seq<Seq<char>>, reflection: bool) -> Json {
    Json::Object(
        seq![
            ("name"@, Json::String(name)),
            ("adapters"@, text_list(adapters)),
            ("enable_reflection"@, Json::Bool(reflection)),
        ],
    )
}

/// The adapters of a layer: the list; in old metadata the single name; else the
/// default.
pub open spec fn adapters_of(meta: Json) -> Seq<Seq<char>> {
    match member(meta, "adapters"@) {
        Some(Json::Array(items)) => texts_in(items),
        _ => match member(meta, "adapter"@) {
            Some(Json::String(s)) => seq![s],
            _ => seq!["ossie"@],
        },
    }
}

/// The metadata with another list of adapters, in the current form.
pub open spec fn with_adapters(meta: Json, adapters: Seq<Seq<char>>) -> Json {
    match meta {
        Json::Object(fields) => Json::Object(
            put(without(fields, "adapter"@), "adapters"@, text_list(adapters)),
        ),
        _ => meta,
    }
}

/// The metadata with reflection on or off.
pub open spec fn with_reflection(meta: Json, enabled: bool) -> Json {
    match meta {
        Json::Object(fields) => Json::Object(put(fields, "enable_reflection"@, Json::Bool(enabled))),
        _ => meta,
    }
}

/// Whether reflection is on; off where nothing says.
pub open spec fn reflects(meta: Json) -> bool {
    match member(meta, "enable_reflection"@) {
        Some(Json::Bool(b)) => b,
        _ => false,
    }
}

/// The metadata with an adapter added, unless it is there.
pub open spec fn adapter_added(meta: Json, adapter: Seq<char>) -> Json {
    if adapters_of(meta).contains(adapter) {
        meta
    } else {
        with_adapters(meta, adapters_of(meta).push(adapter))
    }
}

/// The texts that are not a given one.
pub open spec fn others(texts: Seq<Seq<char>>, t: Seq<char>) -> Seq<Seq<char>>
    decreases texts.len(),
{
    if texts.len() == 0 {
        Seq::empty()
    } else {
        let prev = others(texts.drop_last(), t);
        if texts.last() == t {
            prev
        } else {
            prev.push(texts.last())
        }
    }
}

/// The metadata without an adapter.
pub open spec fn adapter_removed(meta: Json, adapter: Seq<char>) -> Json {
    if adapters_of(meta).contains(adapter) {
        with_adapters(meta, others(adapters_of(meta), adapter))
    } else {
        meta
    }
}

/// The adapter to write a layer for: the one asked for, else the first of the
/// layer's list, else the default.
pub open spec fn export_adapter(meta: Json, adapter: Option<Seq<char>>) -> Seq<char> {
    match adapter {
        Some(a) => a,
        None => match member(meta, "adapters"@) {
            Some(Json::Array(items)) => if items.len() > 0 && items[0] is String {
                items[0]->String_0
            } else {
                "ossie"@
            },
            _ => match member(meta, "adapter"@) {
                Some(Json::String(s)) => s,
                _ => "ossie"@,
            },
        },
    }
}

/// The text of a field, or a default.
pub open spec fn text_field(v: Json, key: Seq<char>, default: Seq<char>) -> Seq<char> {
    match member(v, key) {
        Some(Json::String(s)) => s,
        _ => default,
    }
}

/// Where the parts of one kind are kept.
pub open spec fn kind_prefix(layer: Seq<char>, kind: Seq<char>) -> Seq<char> {
    "semantic_layers/"@ + layer + "/"@ + kind + "/"@
}

/// Where one part is kept.
pub open spec fn part_ref(layer: Seq<char>, kind: Seq<char>, name: Seq<char>) -> Seq<char> {
    kind_prefix(layer, kind) + name
}

/// The names with a prefix, without it.
pub open spec fn names_under(names: Seq<Seq<char>>, prefix: Seq<char>) -> Seq<Seq<char>>
    decreases names.len(),
{
    if names.len() == 0 {
        Seq::empty()
    } else {
        let prev = names_under(names.drop_last(), prefix);
        if starts_with(names.last(), prefix) {
            prev.push(names.last().skip(prefix.len() as int))
        } else {
            prev
        }
    }
}

/// The layer that a reference belongs to.
pub open spec fn layer_of(name: Seq<char>) -> Option<Seq<char>> {
    if starts_with(name, "semantic_layers/"@) {
        let rest = name.skip("semantic_layers/"@.len() as int);
        let head = rest.subrange(
            0,
            match first_at(rest, "/"@, 0) {
                Some(i) => i,
                None => rest.len() as int,
            },
        );
        if head == "_meta"@ {
            None
        } else {
            Some(head)
        }
    } else {
        None
    }
}

/// The layers that references belong to, each where it comes first.
pub open spec fn layers_of(names: Seq<Seq<char>>) -> Seq<Seq<char>>
    decreases names.len(),
{
    if names.len() == 0 {
        Seq::empty()
    } else {
        let prev = layers_of(names.drop_last());
        match layer_of(names.last()) {
            Some(l) if !prev.contains(l) => prev.push(l),
            _ => prev,
        }
    }
}

pub open spec fn dataset_json(name: Seq<char>) -> Json {
    Json::Object(seq![("name"@, Json::String(name)), ("source"@, Json::String(name))])
}

pub open spec fn metric_json(name: Seq<char>, expression: Seq<char>) -> Json {
    Json::Object(
        seq![
            ("name"@, Json::String(name)),
            ("expression"@, Json::String(expression)),
            ("description"@, Json::String(""@)),
            ("format"@, Json::String("number"@)),
        ],
    )
}

pub open spec fn dimension_json(
    name: Seq<char>,
    dataset: Seq<char>,
    field: Seq<char>,
    data_type: Seq<char>,
) -> Json {
    Json::Object(
        seq![
            ("name"@, Json::String(name)),
            ("dataset"@, Json::String(dataset)),
            ("field"@, Json::String(field)),
            ("data_type"@, Json::String(data_type)),
        ],
    )
}

pub open spec fn relationship_json(
    name: Seq<char>,
    from: Seq<char>,
    to: Seq<char>,
    condition: Seq<char>,
) -> Json {
    Json::Object(
        seq![
            ("name"@, Json::String(name)),
            ("from"@, Json::String(from)),
            ("to"@, Json::String(to)),
            ("condition"@, Json::String(condition)),
        ],
    )
}

/// A measure of a layer.
#[derive(Debug, PartialEq)]
pub struct Metric {
    pub name: String,
    pub expression: String,
    pub description: String,
    pub format: String,
}

/// A dimension of a layer.
#[derive(Debug, PartialEq)]
pub struct Dimension {
    pub name: String,
    pub data_type: String,
    pub description: String,
}

/// A join between two collections of a layer.
#[derive(Debug, PartialEq)]
pub struct Relationship {
    pub name: String,
    pub from_collection: String,
    pub to_collection: String,
    pub join_type: String,
    pub join_condition: String,
}

/// What an adapter is given.
#[derive(Debug, PartialEq)]
pub struct SemanticDefinitions {
    pub metrics: Vec<Metric>,
    pub dimensions: Vec<Dimension>,
    pub relationships: Vec<Relationship>,
}

pub open spec fn is_metric(m: Metric, v: Json) -> bool {
    &&& m.name@ == text_field(v, "name"@, ""@)
    &&& m.expression@ == text_field(v, "expression"@, ""@)
    &&& m.description@ == text_field(v, "description"@, ""@)
    &&& m.format@ == text_field(v, "format"@, "number"@)
}

pub open spec fn is_dimension(d: Dimension, v: Json) -> bool {
    &&& d.name@ == text_field(v, "name"@, ""@)
    &&& d.data_type@ == text_field(v, "data_type"@, "string"@)
    &&& d.description@ == text_field(v, "field"@, ""@)
}

pub open spec fn is_relationship(r: Relationship, v: Json) -> bool {
    &&& r.name@ == text_field(v, "name"@, ""@)
    &&& r.from_collection@ == text_field(v, "from"@, ""@)
    &&& r.to_collection@ == text_field(v, "to"@, ""@)
    &&& r.join_type@ == "inner"@
    &&& r.join_condition@ == text_field(v, "condition"@, ""@)
}

/// The definitions that stored values give, one for one.
pub open spec fn are_definitions(
    d: SemanticDefinitions,
    metrics: Seq<Json>,
    dimensions: Seq<Json>,
    relationships: Seq<Json>,
) -> bool {
    &&& d.metrics@.len() == metrics.len()
    &&& d.dimensions@.len() == dimensions.len()
    &&& d.relationships@.len() == relationships.len()
    &&& forall|i: int| 0 <= i < metrics.len() ==> is_metric(#[trigger] d.metrics@[i], metrics[i])
    &&& forall|i: int|
        0 <= i < dimensions.len() ==> is_dimension(#[trigger] d.dimensions@[i], dimensions[i])
    &&& forall|i: int|
        0 <= i < relationships.len() ==> is_relationship(
            #[trigger] d.relationships@[i],
            relationships[i],
        )
}

/// An overview of a layer.
#[derive(Debug, PartialEq)]
pub struct LayerInfo {
    pub name: String,
    pub adapters: Vec<String>,
    pub reflection_enabled: bool,
    pub datasets: Vec<String>,
    pub metrics: Vec<String>,
    pub dimensions: Vec<String>,
    pub relationships: Vec<String>,
}

fn append(out: &mut Vec<char>, s: &str)
    ensures
        final(out)@ == old(out)@ + s@,
{
    let c = chars_of(s);
    push_chars(out, &c);
}

fn add_str(fields: &mut Vec<(String, JsonValue)>, key: &str, value: &str)
    ensures
        field_views(final(fields)@) == field_views(old(fields)@).push((key@, Json::String(value@))),
{
    let ghost before = field_views(fields@);
    fields.push((copy_text(key), JsonValue::String(copy_text(value))));
    proof {
        assert(field_views(fields@) =~= before.push((key@, Json::String(value@))));
    }
}

fn list_of_texts(texts: &Vec<String>) -> (r: JsonValue)
    ensures
        r@ == text_list(text_views(texts@)),
{
    let ghost want = text_list(text_views(texts@))->Array_0;
    let mut out: Vec<JsonValue> = Vec::new();
    let mut i: usize = 0;
    while i < texts.len()
        invariant
            i <= texts@.len(),
            want == text_list(text_views(texts@))->Array_0,
            json_views(out@) =~= want.take(i as int),
        decreases texts@.len() - i,
    {
        let ghost before = json_views(out@);
        out.push(JsonValue::String(copy_text(&texts[i])));
        proof {
            assert(json_views(out@) =~= before.push(Json::String(texts@[i as int]@)));
        }
        i = i + 1;
    }
    proof {
        assert(json_views(out@) =~= want);
        lemma_array_view(out);
    }
    JsonValue::Array(out)
}

fn fields_without(fields: &Vec<(String, JsonValue)>, key: &str) -> (r: Vec<(String, JsonValue)>)
    ensures
        field_views(r@) == without(field_views(fields@), key@),
{
    let ghost all = field_views(fields@);
    let mut out: Vec<(String, JsonValue)> = Vec::new();
    let mut i: usize = 0;
    proof {
        assert(all.take(0) =~= Seq::<(Seq<char>, Json)>::empty());
        assert(field_views(out@) =~= Seq::<(Seq<char>, Json)>::empty());
    }
    while i < fields.len()
        invariant
            i <= fields@.len(),
            all == field_views(fields@),
            field_views(out@) == without(all.take(i as int), key@),
        decreases fields@.len() - i,
    {
        let ghost before = field_views(out@);
        proof {
            assert(all.take(i as int + 1).drop_last() =~= all.take(i as int));
            assert(all.take(i as int + 1).last() == all[i as int]);
        }
        if !same_text(&fields[i].0, key) {
            let k = copy_text(&fields[i].0);
            let v = copy_json(&fields[i].1);
            let ghost f = (k@, v@);
            out.push((k, v));
            proof {
                assert(field_views(out@) =~= before.push(f));
            }
        }
        i = i + 1;
    }
    proof {
        assert(all.take(i as int) =~= all);
    }
    out
}

fn has_text(texts: &Vec<String>, t: &str) -> (r: bool)
    ensures
        r == text_views(texts@).contains(t@),
{
    let ghost all = text_views(texts@);
    let mut i: usize = 0;
    while i < texts.len()
        invariant
            i <= texts@.len(),
            all == text_views(texts@),
            forall|k: int| 0 <= k < i ==> #[trigger] all[k] != t@,
        decreases texts@.len() - i,
    {
        proof {
            assert(all[i as int] == texts@[i as int]@);
        }
        if same_text(&texts[i], t) {
            return true;
        }
        i = i + 1;
    }
    false
}

fn field_or(v: &JsonValue, key: &str, default: &str) -> (r: String)
    ensures
        r@ == text_field(v@, key@, default@),
{
    match v.get(key) {
        Some(JsonValue::String(s)) => copy_text(s),
        _ => copy_text(default),
    }
}

fn prefix_of(layer: &str, kind: &str) -> (r: Vec<char>)
    ensures
        r@ == kind_prefix(layer@, kind@),
{
    let mut out = chars_of("semantic_layers/");
    append(&mut out, layer);
    append(&mut out, "/");
    append(&mut out, kind);
    append(&mut out, "/");
    out
}

fn ref_of(layer: &str, kind: &str, name: &str) -> (r: String)
    ensures
        r@ == part_ref(layer@, kind@, name@),
{
    let mut out = prefix_of(layer, kind);
    append(&mut out, name);
    text_of(&out)
}

fn strip_each(names: &Vec<String>, prefix: &Vec<char>) -> (r: Vec<String>)
    ensures
        text_views(r@) == names_under(text_views(names@), prefix@),
{
    let ghost all = text_views(names@);
    let mut out: Vec<String> = Vec::new();
    let mut i: usize = 0;
    proof {
        assert(all.take(0) =~= Seq::<Seq<char>>::empty());
        assert(text_views(out@) =~= Seq::<Seq<char>>::empty());
    }
    while i < names.len()
        invariant
            i <= names@.len(),
            all == text_views(names@),
            text_views(out@) == names_under(all.take(i as int), prefix@),
        decreases names@.len() - i,
    {
        let ghost before = text_views(out@);
        proof {
            assert(all.take(i as int + 1).drop_last() =~= all.take(i as int));
            assert(all.take(i as int + 1).last() == all[i as int]);
        }
        let chars = chars_of(&names[i]);
        if has_prefix(&chars, prefix) {
            let rest = copy_chars(&chars, prefix.len(), chars.len());
            let t = text_of(&rest);
            proof {
                assert(t@ =~= all[i as int].skip(prefix@.len() as int));
            }
            let ghost tv = t@;
            out.push(t);
            proof {
                assert(text_views(out@) =~= before.push(tv));
            }
        }
        i = i + 1;
    }
    proof {
        assert(all.take(i as int) =~= all);
    }
    out
}

/// Lists the layers that references belong to.
pub fn layers(names: &Vec<String>) -> (r: Vec<String>)
    ensures
        text_views(r@) == layers_of(text_views(names@)),
{
    let ghost all = text_views(names@);
    let head = chars_of("semantic_layers/");
    let slash = chars_of("/");
    let mut out: Vec<String> = Vec::new();
    let mut i: usize = 0;
    proof {
        assert(all.take(0) =~= Seq::<Seq<char>>::empty());
        assert(text_views(out@) =~= Seq::<Seq<char>>::empty());
    }
    while i < names.len()
        invariant
            i <= names@.len(),
            all == text_views(names@),
            head@ == "semantic_layers/"@,
            slash@ == "/"@,
            text_views(out@) == layers_of(all.take(i as int)),
        decreases names@.len() - i,
    {
        let ghost before = text_views(out@);
        proof {
            assert(all.take(i as int + 1).drop_last() =~= all.take(i as int));
            assert(all.take(i as int + 1).last() == all[i as int]);
        }
        let chars = chars_of(&names[i]);
        if has_prefix(&chars, &head) {
            let rest = copy_chars(&chars, head.len(), chars.len());
            proof {
                assert(rest@ =~= all[i as int].skip(head@.len() as int));
            }
            let k: usize = match find(&rest, &slash, 0) {
                Some(k) => k,
                None => rest.len(),
            };
            let part = copy_chars(&rest, 0, k);
            let t = text_of(&part);
            if !same_text(&t, "_meta") && !has_text(&out, &t) {
                let ghost tv = t@;
                out.push(t);
                proof {
                    assert(text_views(out@) =~= before.push(tv));
                }
            }
        }
        i = i + 1;
    }
    proof {
        assert(all.take(i as int) =~= all);
    }
    out
}

fn read_metrics(values: &Vec<JsonValue>) -> (r: Vec<Metric>)
    ensures
        r@.len() == values@.len(),
        forall|i: int| 0 <= i < values@.len() ==> is_metric(#[trigger] r@[i], json_views(values@)[i]),
{
    let mut out: Vec<Metric> = Vec::new();
    let mut i: usize = 0;
    while i < values.len()
        invariant
            i <= values@.len(),
            out@.len() == i,
            forall|k: int| 0 <= k < i ==> is_metric(#[trigger] out@[k], json_views(values@)[k]),
        decreases values@.len() - i,
    {
        let v = &values[i];
        out.push(
            Metric {
                name: field_or(v, "name", ""),
                expression: field_or(v, "expression", ""),
                description: field_or(v, "description", ""),
                format: field_or(v, "format", "number"),
            },
        );
        i = i + 1;
    }
    out
}

fn read_dimensions(values: &Vec<JsonValue>) -> (r: Vec<Dimension>)
    ensures
        r@.len() == values@.len(),
        forall|i: int|
            0 <= i < values@.len() ==> is_dimension(#[trigger] r@[i], json_views(values@)[i]),
{
    let mut out: Vec<Dimension> = Vec::new();
    let mut i: usize = 0;
    while i < values.len()
        invariant
            i <= values@.len(),
            out@.len() == i,
            forall|k: int| 0 <= k < i ==> is_dimension(#[trigger] out@[k], json_views(values@)[k]),
        decreases values@.len() - i,
    {
        let v = &values[i];
        out.push(
            Dimension {
                name: field_or(v, "name", ""),
                data_type: field_or(v, "data_type", "string"),
                description: field_or(v, "field", ""),
            },
        );
        i = i + 1;
    }
    out
}

fn read_relationships(values: &Vec<JsonValue>) -> (r: Vec<Relationship>)
    ensures
        r@.len() == values@.len(),
        forall|i: int|
            0 <= i < values@.len() ==> is_relationship(#[trigger] r@[i], json_views(values@)[i]),
{
    let mut out: Vec<Relationship> = Vec::new();
    let mut i: usize = 0;
    while i < values.len()
        invariant
            i <= values@.len(),
            out@.len() == i,
            forall|k: int|
                0 <= k < i ==> is_relationship(#[trigger] out@[k], json_views(values@)[k]),
        decreases values@.len() - i,
    {
        let v = &values[i];
        out.push(
            Relationship {
                name: field_or(v, "name", ""),
                from_collection: field_or(v, "from", ""),
                to_collection: field_or(v, "to", ""),
                join_type: copy_text("inner"),
                join_condition: field_or(v, "condition", ""),
            },
        );
        i = i + 1;
    }
    out
}

impl SemanticLayer {
    /// A new layer; without a list it has the default adapter.
    pub fn new(name: &str, adapters: Option<Vec<String>>, enable_reflection: bool) -> (r: SemanticLayer)
        ensures
            r.name@ == name@,
            r.meta@ == new_meta(
                name@,
                match adapters {
                    Some(a) => text_views(a@),
                    None => seq!["ossie"@],
                },
                enable_reflection,
            ),
    {
        let list: Vec<String> = match adapters {
            Some(a) => a,
            None => {
                let mut d: Vec<String> = Vec::new();
                d.push(copy_text("ossie"));
                proof {
                    assert(text_views(d@) =~= seq!["ossie"@]);
                }
                d
            },
        };
        let ghost want = text_views(list@);
        let mut fields: Vec<(String, JsonValue)> = Vec::new();
        add_str(&mut fields, "name", name);
        let l = list_of_texts(&list);
        let ghost lv = l@;
        let ghost f1 = field_views(fields@);
        fields.push((copy_text("adapters"), l));
        let ghost f2 = field_views(fields@);
        fields.push((copy_text("enable_reflection"), JsonValue::Bool(enable_reflection)));
        proof {
            assert(f1 =~= seq![("name"@, Json::String(name@))]);
            assert(f2 =~= f1.push(("adapters"@, lv)));
            assert(JsonValue::Bool(enable_reflection)@ == Json::Bool(enable_reflection));
            assert(field_views(fields@) =~= f2.push(
                ("enable_reflection"@, Json::Bool(enable_reflection)),
            ));
            assert(field_views(fields@) =~= seq![
                ("name"@, Json::String(name@)),
                ("adapters"@, text_list(want)),
                ("enable_reflection"@, Json::Bool(enable_reflection)),
            ]);
            lemma_object_view(fields);
        }
        SemanticLayer { name: copy_text(name), meta: JsonValue::Object(fields) }
    }

    /// Where the metadata of a layer is kept.
    pub fn meta_ref(&self) -> (r: String)
        ensures
            r@ == "semantic_layers/"@ + self.name@ + "/_meta"@,
    {
        let chars = chars_of(&self.name);
        message("semantic_layers/", &chars, "/_meta")
    }

    /// The adapters of the layer.
    pub fn adapters(&self) -> (r: Vec<String>)
        ensures
            text_views(r@) == adapters_of(self.meta@),
    {
        match self.meta.get("adapters") {
            Some(JsonValue::Array(items)) => {
                proof {
                    lemma_array_view(*items);
                }
                texts_of_list(items)
            },
            _ => {
                let name: String = match self.meta.get("adapter") {
                    Some(JsonValue::String(s)) => copy_text(s),
                    _ => copy_text("ossie"),
                };
                let ghost nv = name@;
                let mut out: Vec<String> = Vec::new();
                out.push(name);
                proof {
                    assert(text_views(out@) =~= seq![nv]);
                }
                out
            },
        }
    }

    /// Sets the list of adapters; a single name of old metadata goes.
    pub fn set_adapters_field(&mut self, adapters: &Vec<String>)
        ensures
            final(self).name == old(self).name,
            final(self).meta@ == with_adapters(old(self).meta@, text_views(adapters@)),
    {
        let new: Option<Vec<(String, JsonValue)>> = match &self.meta {
            JsonValue::Object(fields) => {
                proof {
                    lemma_object_view(*fields);
                }
                let mut kept = fields_without(fields, "adapter");
                let list = list_of_texts(adapters);
                put_field(&mut kept, "adapters", list);
                proof {
                    lemma_object_view(kept);
                }
                Some(kept)
            },
            _ => None,
        };
        if let Some(fields) = new {
            self.meta = JsonValue::Object(fields);
        }
    }

    /// Adds an adapter, unless it is there.
    pub fn add_adapter(&mut self, adapter: &str)
        ensures
            final(self).name == old(self).name,
            final(self).meta@ == adapter_added(old(self).meta@, adapter@),
    {
        let mut current = self.adapters();
        if !has_text(&current, adapter) {
            let ghost before = text_views(current@);
            current.push(copy_text(adapter));
            proof {
                assert(text_views(current@) =~= before.push(adapter@));
            }
            self.set_adapters_field(&current);
        }
    }

    /// Removes an adapter; tells whether it was there.
    pub fn remove_adapter(&mut self, adapter: &str) -> (r: bool)
        ensures
            r == adapters_of(old(self).meta@).contains(adapter@),
            final(self).name == old(self).name,
            final(self).meta@ == adapter_removed(old(self).meta@, adapter@),
    {
        let current = self.adapters();
        let ghost all = text_views(current@);
        if !has_text(&current, adapter) {
            return false;
        }
        let mut kept: Vec<String> = Vec::new();
        let mut i: usize = 0;
        proof {
            assert(all.take(0) =~= Seq::<Seq<char>>::empty());
            assert(text_views(kept@) =~= Seq::<Seq<char>>::empty());
        }
        while i < current.len()
            invariant
                i <= current@.len(),
                *self == *old(self),
                all == text_views(current@),
                text_views(kept@) == others(all.take(i as int), adapter@),
            decreases current@.len() - i,
        {
            let ghost before = text_views(kept@);
            proof {
                assert(all.take(i as int + 1).drop_last() =~= all.take(i as int));
                assert(all.take(i as int + 1).last() == all[i as int]);
            }
            if !same_text(&current[i], adapter) {
                kept.push(copy_text(&current[i]));
                proof {
                    assert(text_views(kept@) =~= before.push(current@[i as int]@));
                }
            }
            i = i + 1;
        }
        proof {
            assert(all.take(i as int) =~= all);
        }
        self.set_adapters_field(&kept);
        true
    }

    /// Turns reflection on or off.
    pub fn set_reflection_flag(&mut self, enabled: bool)
        ensures
            final(self).name == old(self).name,
            final(self).meta@ == with_reflection(old(self).meta@, enabled),
    {
        let new: Option<JsonValue> = match copy_json(&self.meta) {
            JsonValue::Object(fields) => {
                let mut fields = fields;
                proof {
                    lemma_object_view(fields);
                }
                put_field(&mut fields, "enable_reflection", JsonValue::Bool(enabled));
                proof {
                    lemma_object_view(fields);
                }
                Some(JsonValue::Object(fields))
            },
            _ => None,
        };
        if let Some(m) = new {
            self.meta = m;
        }
    }

    pub fn enable_reflection(&mut self)
        ensures
            final(self).name == old(self).name,
            final(self).meta@ == with_reflection(old(self).meta@, true),
    {
        self.set_reflection_flag(true)
    }

    pub fn disable_reflection(&mut self)
        ensures
            final(self).name == old(self).name,
            final(self).meta@ == with_reflection(old(self).meta@, false),
    {
        self.set_reflection_flag(false)
    }

    /// The datasets to store: for each where it is kept, and what it says.
    pub fn add_datasets(&self, datasets: &Vec<String>) -> (r: Vec<(String, JsonValue)>)
        ensures
            field_views(r@) =~= Seq::new(
                datasets@.len(),
                |i: int|
                    (
                        part_ref(self.name@, "datasets"@, datasets@[i]@),
                        dataset_json(datasets@[i]@),
                    ),
            ),
    {
        let mut out: Vec<(String, JsonValue)> = Vec::new();
        let mut i: usize = 0;
        while i < datasets.len()
            invariant
                i <= datasets@.len(),
                out@.len() == i,
                forall|k: int|
                    0 <= k < i ==> (#[trigger] out@[k]).0@ == part_ref(
                        self.name@,
                        "datasets"@,
                        datasets@[k]@,
                    ) && out@[k].1@ == dataset_json(datasets@[k]@),
            decreases datasets@.len() - i,
        {
            let mut fields: Vec<(String, JsonValue)> = Vec::new();
            add_str(&mut fields, "name", &datasets[i]);
            add_str(&mut fields, "source", &datasets[i]);
            proof {
                lemma_object_view(fields);
                assert(field_views(fields@) =~= dataset_json(datasets@[i as int]@)->Object_0);
            }
            out.push((ref_of(&self.name, "datasets", &datasets[i]), JsonValue::Object(fields)));
            i = i + 1;
        }
        out
    }

    /// The metrics to store, by name and expression.
    pub fn add_metrics(&self, metrics: &Vec<(String, String)>) -> (r: Vec<(String, JsonValue)>)
        ensures
            field_views(r@) =~= Seq::new(
                metrics@.len(),
                |i: int|
                    (
                        part_ref(self.name@, "metrics"@, metrics@[i].0@),
                        metric_json(metrics@[i].0@, metrics@[i].1@),
                    ),
            ),
    {
        let mut out: Vec<(String, JsonValue)> = Vec::new();
        let mut i: usize = 0;
        while i < metrics.len()
            invariant
                i <= metrics@.len(),
                out@.len() == i,
                forall|k: int|
                    0 <= k < i ==> (#[trigger] out@[k]).0@ == part_ref(
                        self.name@,
                        "metrics"@,
                        metrics@[k].0@,
                    ) && out@[k].1@ == metric_json(metrics@[k].0@, metrics@[k].1@),
            decreases metrics@.len() - i,
        {
            let mut fields: Vec<(String, JsonValue)> = Vec::new();
            add_str(&mut fields, "name", &metrics[i].0);
            add_str(&mut fields, "expression", &metrics[i].1);
            add_str(&mut fields, "description", "");
            add_str(&mut fields, "format", "number");
            proof {
                lemma_object_view(fields);
                assert(field_views(fields@) =~= metric_json(
                    metrics@[i as int].0@,
                    metrics@[i as int].1@,
                )->Object_0);
            }
            out.push((ref_of(&self.name, "metrics", &metrics[i].0), JsonValue::Object(fields)));
            i = i + 1;
        }
        out
    }

    /// The dimensions to store, by name, with collection, field and data type.
    pub fn add_dimensions(&self, dimensions: &Vec<(String, (String, String, String))>) -> (r: Vec<
        (String, JsonValue),
    >)
        ensures
            field_views(r@) =~= Seq::new(
                dimensions@.len(),
                |i: int|
                    (
                        part_ref(self.name@, "dimensions"@, dimensions@[i].0@),
                        dimension_json(
                            dimensions@[i].0@,
                            (dimensions@[i].1).0@,
                            (dimensions@[i].1).1@,
                            (dimensions@[i].1).2@,
                        ),
                    ),
            ),
    {
        let mut out: Vec<(String, JsonValue)> = Vec::new();
        let mut i: usize = 0;
        while i < dimensions.len()
            invariant
                i <= dimensions@.len(),
                out@.len() == i,
                forall|k: int|
                    0 <= k < i ==> (#[trigger] out@[k]).0@ == part_ref(
                        self.name@,
                        "dimensions"@,
                        dimensions@[k].0@,
                    ) && out@[k].1@ == dimension_json(
                        dimensions@[k].0@,
                        (dimensions@[k].1).0@,
                        (dimensions@[k].1).1@,
                        (dimensions@[k].1).2@,
                    ),
            decreases dimensions@.len() - i,
        {
            let (name, (dataset, field, data_type)) = &dimensions[i];
            let mut fields: Vec<(String, JsonValue)> = Vec::new();
            add_str(&mut fields, "name", name);
            add_str(&mut fields, "dataset", dataset);
            add_str(&mut fields, "field", field);
            add_str(&mut fields, "data_type", data_type);
            proof {
                lemma_object_view(fields);
                assert(field_views(fields@) =~= dimension_json(
                    name@,
                    dataset@,
                    field@,
                    data_type@,
                )->Object_0);
            }
            out.push((ref_of(&self.name, "dimensions", name), JsonValue::Object(fields)));
            i = i + 1;
        }
        out
    }

    /// The relationships to store, by name, with both sides and the condition.
    pub fn add_relationships(&self, relationships: &Vec<(String, (String, String, String))>) -> (r: Vec<
        (String, JsonValue),
    >)
        ensures
            field_views(r@) =~= Seq::new(
                relationships@.len(),
                |i: int|
                    (
                        part_ref(self.name@, "relationships"@, relationships@[i].0@),
                        relationship_json(
                            relationships@[i].0@,
                            (relationships@[i].1).0@,
                            (relationships@[i].1).1@,
                            (relationships@[i].1).2@,
                        ),
                    ),
            ),
    {
        let mut out: Vec<(String, JsonValue)> = Vec::new();
        let mut i: usize = 0;
        while i < relationships.len()
            invariant
                i <= relationships@.len(),
                out@.len() == i,
                forall|k: int|
                    0 <= k < i ==> (#[trigger] out@[k]).0@ == part_ref(
                        self.name@,
                        "relationships"@,
                        relationships@[k].0@,
                    ) && out@[k].1@ == relationship_json(
                        relationships@[k].0@,
                        (relationships@[k].1).0@,
                        (relationships@[k].1).1@,
                        (relationships@[k].1).2@,
                    ),
            decreases relationships@.len() - i,
        {
            let (name, (from, to, condition)) = &relationships[i];
            let mut fields: Vec<(String, JsonValue)> = Vec::new();
            add_str(&mut fields, "name", name);
            add_str(&mut fields, "from", from);
            add_str(&mut fields, "to", to);
            add_str(&mut fields, "condition", condition);
            proof {
                lemma_object_view(fields);
                assert(field_views(fields@) =~= relationship_json(
                    name@,
                    from@,
                    to@,
                    condition@,
                )->Object_0);
            }
            out.push((ref_of(&self.name, "relationships", name), JsonValue::Object(fields)));
            i = i + 1;
        }
        out
    }

    /// The name under which a part of a kind is stored.
    pub fn part_name(&self, kind: &str, name: &str) -> (r: String)
        ensures
            r@ == part_ref(self.name@, kind@, name@),
    {
        ref_of(&self.name, kind, name)
    }

    /// The datasets among reference names.
    pub fn datasets(&self, names: &Vec<String>) -> (r: Vec<String>)
        ensures
            text_views(r@) == names_under(text_views(names@), kind_prefix(self.name@, "datasets"@)),
    {
        let prefix = prefix_of(&self.name, "datasets");
        strip_each(names, &prefix)
    }

    /// The metrics among reference names.
    pub fn metrics(&self, names: &Vec<String>) -> (r: Vec<String>)
        ensures
            text_views(r@) == names_under(text_views(names@), kind_prefix(self.name@, "metrics"@)),
    {
        let prefix = prefix_of(&self.name, "metrics");
        strip_each(names, &prefix)
    }

    /// The dimensions among reference names.
    pub fn dimensions(&self, names: &Vec<String>) -> (r: Vec<String>)
        ensures
            text_views(r@) == names_under(
                text_views(names@),
                kind_prefix(self.name@, "dimensions"@),
            ),
    {
        let prefix = prefix_of(&self.name, "dimensions");
        strip_each(names, &prefix)
    }

    /// The relationships among reference names.
    pub fn relationships(&self, names: &Vec<String>) -> (r: Vec<String>)
        ensures
            text_views(r@) == names_under(
                text_views(names@),
                kind_prefix(self.name@, "relationships"@),
            ),
    {
        let prefix = prefix_of(&self.name, "relationships");
        strip_each(names, &prefix)
    }

    /// An overview of the layer, from its metadata and the reference names.
    pub fn info(&self, names: &Vec<String>) -> (r: LayerInfo)
        ensures
            r.name@ == text_field(self.meta@, "name"@, self.name@),
            text_views(r.adapters@) == adapters_of(self.meta@),
            r.reflection_enabled == reflects(self.meta@),
            text_views(r.datasets@) == names_under(
                text_views(names@),
                kind_prefix(self.name@, "datasets"@),
            ),
            text_views(r.metrics@) == names_under(
                text_views(names@),
                kind_prefix(self.name@, "metrics"@),
            ),
            text_views(r.dimensions@) == names_under(
                text_views(names@),
                kind_prefix(self.name@, "dimensions"@),
            ),
            text_views(r.relationships@) == names_under(
                text_views(names@),
                kind_prefix(self.name@, "relationships"@),
            ),
    {
        let reflection_enabled: bool = match self.meta.get("enable_reflection") {
            Some(JsonValue::Bool(b)) => *b,
            _ => false,
        };
        LayerInfo {
            name: field_or(&self.meta, "name", &self.name),
            adapters: self.adapters(),
            reflection_enabled,
            datasets: self.datasets(names),
            metrics: self.metrics(names),
            dimensions: self.dimensions(names),
            relationships: self.relationships(names),
        }
    }

    /// What is written for an adapter: the definitions that the stored values
    /// give, or the message for an adapter that is not known.
    pub fn export(
        &self,
        adapter: Option<&str>,
        metrics: &Vec<JsonValue>,
        dimensions: &Vec<JsonValue>,
        relationships: &Vec<JsonValue>,
    ) -> (r: Result<SemanticDefinitions, String>)
        ensures
            ({
                let name = export_adapter(
                    self.meta@,
                    match adapter {
                        Some(a) => Some(a@),
                        None => None,
                    },
                );
                match r {
                    Ok(d) => name == "ossie"@ && are_definitions(
                        d,
                        json_views(metrics@),
                        json_views(dimensions@),
                        json_views(relationships@),
                    ),
                    Err(e) => name != "ossie"@ && e@ == "Unknown adapter: '"@ + name
                        + "'. Supported: ossie"@,
                }
            }),
    {
        let name: String = match adapter {
            Some(a) => copy_text(a),
            None => match self.meta.get("adapters") {
                Some(JsonValue::Array(items)) => {
                    proof {
                        lemma_array_view(*items);
                    }
                    if items.len() == 0 {
                        copy_text("ossie")
                    } else {
                        match &items[0] {
                            JsonValue::String(s) => copy_text(s),
                            _ => copy_text("ossie"),
                        }
                    }
                },
                _ => field_or(&self.meta, "adapter", "ossie"),
            },
        };
        if same_text(&name, "ossie") {
            Ok(
                SemanticDefinitions {
                    metrics: read_metrics(metrics),
                    dimensions: read_dimensions(dimensions),
                    relationships: read_relationships(relationships),
                },
            )
        } else {
            let chars = chars_of(&name);
            Err(message("Unknown adapter: '", &chars, "'. Supported: ossie"))
        }
    }
}

proof fn lemma_texts_of_text_list(texts: Seq<Seq<char>>)
    ensures
        texts_in(text_list(texts)->Array_0) == texts,
    decreases texts.len(),
{
    let items = text_list(texts)->Array_0;
    if texts.len() > 0 {
        lemma_texts_of_text_list(texts.drop_last());
        assert(items.drop_last() =~= text_list(texts.drop_last())->Array_0);
        assert(texts.drop_last().push(texts.last()) =~= texts);
    } else {
        assert(texts_in(items) =~= texts);
    }
}

proof fn lemma_others_lacks(texts: Seq<Seq<char>>, t: Seq<char>)
    ensures
        !others(texts, t).contains(t),
        forall|x: Seq<char>|
            x != t ==> (#[trigger] others(texts, t).contains(x) <==> texts.contains(x)),
    decreases texts.len(),
{
    if texts.len() > 0 {
        let init = texts.drop_last();
        let prev = others(init, t);
        lemma_others_lacks(init, t);
        assert forall|x: Seq<char>| x != t implies (#[trigger] others(texts, t).contains(x)
            <==> texts.contains(x)) by {
            if texts.contains(x) {
                let k = choose|k: int| 0 <= k < texts.len() && texts[k] == x;
                if k < init.len() {
                    assert(init[k] == x);
                    assert(init.contains(x));
                    assert(prev.contains(x));
                    let m = choose|m: int| 0 <= m < prev.len() && prev[m] == x;
                    assert(others(texts, t)[m] == x);
                } else {
                    assert(others(texts, t).last() == x);
                }
            }
            if others(texts, t).contains(x) {
                let m = choose|m: int| 0 <= m < others(texts, t).len() && others(texts, t)[m] == x;
                if m < prev.len() {
                    assert(prev[m] == x);
                    assert(prev.contains(x));
                    assert(init.contains(x));
                    let k = choose|k: int| 0 <= k < init.len() && init[k] == x;
                    assert(texts[k] == x);
                } else {
                    assert(texts.last() == x);
                }
            }
        }
        if others(texts, t).contains(t) {
            let m = choose|m: int| 0 <= m < others(texts, t).len() && others(texts, t)[m] == t;
            if m < prev.len() {
                assert(prev[m] == t);
                assert(prev.contains(t));
            }
        }
    }
}

/// A list of adapters that was set reads back.
pub proof fn adapters_read_back(meta: Json, adapters: Seq<Seq<char>>)
    requires
        meta is Object,
    ensures
        adapters_of(with_adapters(meta, adapters)) == adapters,
{
    let kept = without(meta->Object_0, "adapter"@);
    put_then_lookup(kept, "adapters"@, text_list(adapters), "adapters"@);
    lemma_texts_of_text_list(adapters);
}

/// After an adapter is added the layer has it, and the others as before; adding
/// it again changes nothing.
pub proof fn added_adapter_is_there(meta: Json, adapter: Seq<char>)
    requires
        meta is Object,
    ensures
        adapters_of(adapter_added(meta, adapter)).contains(adapter),
        forall|x: Seq<char>|
            x != adapter ==> (#[trigger] adapters_of(adapter_added(meta, adapter)).contains(x)
                <==> adapters_of(meta).contains(x)),
        adapter_added(adapter_added(meta, adapter), adapter) == adapter_added(meta, adapter),
{
    let before = adapters_of(meta);
    if !before.contains(adapter) {
        let after = before.push(adapter);
        adapters_read_back(meta, after);
        assert(after.last() == adapter);
        assert forall|x: Seq<char>| x != adapter implies (#[trigger] after.contains(x)
            <==> before.contains(x)) by {
            if before.contains(x) {
                let k = choose|k: int| 0 <= k < before.len() && before[k] == x;
                assert(after[k] == x);
            }
            if after.contains(x) {
                let k = choose|k: int| 0 <= k < after.len() && after[k] == x;
                assert(before[k] == x);
            }
        }
    }
}

/// After an adapter is removed the layer does not have it, and has the others as
/// before.
pub proof fn removed_adapter_is_gone(meta: Json, adapter: Seq<char>)
    requires
        meta is Object,
    ensures
        !adapters_of(adapter_removed(meta, adapter)).contains(adapter),
        forall|x: Seq<char>|
            x != adapter ==> (#[trigger] adapters_of(adapter_removed(meta, adapter)).contains(x)
                <==> adapters_of(meta).contains(x)),
{
    let before = adapters_of(meta);
    if before.contains(adapter) {
        lemma_others_lacks(before, adapter);
        adapters_read_back(meta, others(before, adapter));
    }
}

/// Reflection reads back as it was set, and leaves the adapters alone.
pub proof fn reflection_reads_back(meta: Json, enabled: bool)
    requires
        meta is Object,
    ensures
        reflects(with_reflection(meta, enabled)) == enabled,
        adapters_of(with_reflection(meta, enabled)) == adapters_of(meta),
{
    let fields = meta->Object_0;
    let v = Json::Bool(enabled);
    reveal_strlit("enable_reflection");
    reveal_strlit("adapters");
    reveal_strlit("adapter");
    assert("enable_reflection"@.len() != "adapters"@.len());
    assert("enable_reflection"@.len() != "adapter"@.len());
    put_then_lookup(fields, "enable_reflection"@, v, "adapters"@);
    put_then_lookup(fields, "enable_reflection"@, v, "adapter"@);
}

/// What is stored under a layer is listed under it by its own name.
pub proof fn stored_part_is_listed(layer: Seq<char>, kind: Seq<char>, name: Seq<char>)
    ensures
        names_under(seq![part_ref(layer, kind, name)], kind_prefix(layer, kind)) == seq![name],
{
    let prefix = kind_prefix(layer, kind);
    let full = part_ref(layer, kind, name);
    assert(full.subrange(0, prefix.len() as int) =~= prefix);
    assert(full.skip(prefix.len() as int) =~= name);
    let names = seq![full];
    assert(names.drop_last() =~= Seq::<Seq<char>>::empty());
    assert(names_under(names.drop_last(), prefix) =~= Seq::<Seq<char>>::empty());
    assert(names_under(names, prefix) =~= seq![name]);
}

/// A metric that was stored is exported as it was given.
pub proof fn metric_reads_back(name: Seq<char>, expression: Seq<char>, m: Metric)
    requires
        is_metric(m, metric_json(name, expression)),
    ensures
        m.name@ == name,
        m.expression@ == expression,
        m.format@ == "number"@,
{
    let fields = metric_json(name, expression)->Object_0;
    reveal_strlit("name");
    reveal_strlit("expression");
    reveal_strlit("description");
    reveal_strlit("format");
    lemma_key_at(fields, "name"@);
    lemma_key_at(fields, "expression"@);
    lemma_key_at(fields, "format"@);
    assert(fields[0].0 == "name"@);
    assert(fields[1].0 == "expression"@);
    assert(fields[2].0 == "description"@);
    assert(fields[3].0 == "format"@);
    assert("name"@.len() != "expression"@.len());
    assert("name"@.len() != "format"@.len());
    assert("expression"@[0] != "description"@[0]);
    assert("expression"@.len() != "format"@.len());
    assert("description"@.len() != "format"@.len());
    assert("name"@.len() != "description"@.len());
}

} // verus!
