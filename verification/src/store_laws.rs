//! What is kept, and where: blobs in the cache, files, collections, layers, indexes.

use vstd::prelude::*;
use vstd::string::*;
use crate::cache::{after_put, after_range_read, after_remove, after_write, after_write_if, blob_file, cache_place,
    elapsed, fetch_begun, fetch_ended, new_store, promoted, range_of, ref_seen, suffix_of, turns_off, with_disk_limit,
    with_mem_limit, with_ref, without_ref, DiskView, DiskWrite, StoreView};
use crate::index::{cell_parts, excluded, has_component, index_plan, keys_of_row, list_parts, lookup_key, texts_in,
    IndexProbe, PlanView};
use crate::json::{lemma_key_at, lemma_key_at_is, lookup, member, put_then_lookup, Json, Number};
use crate::layer::{adapter_added, adapter_removed, adapters_of, dataset_json, dimension_json, export_adapter,
    is_dimension, is_metric, is_relationship, layer_of, layers_of, names_under, new_meta, others, part_ref, reflects,
    relationship_json, text_list, with_adapters, with_reflection, without, Dimension, Metric, Relationship};
use crate::media::{extension, mime_of};
use crate::merge::fields_of;
use crate::merge_laws::lemma_push_contains;
use crate::names::{blob_match, collection_of, storage_at, store_of, stored_under};
use crate::row_laws::last_of;
use crate::text::{decimal, decimal_int, holds, split, starts_with};
use crate::tiers::without_key;
use crate::upload::{blob_of, count_json, escaped, file_fields, file_row, first_blob, mime_for, put_all};

verus! {

/// A blob that was put is in memory where it is small enough, and every other blob and
/// every range is as it was.
pub proof fn a_put_blob_is_in_memory(v: StoreView, hash: Seq<char>, data: Seq<u8>, write: DiskWrite, other: Seq<char>)
    ensures
        ({
            let w = after_put(v, hash, data, write).0;
            &&& data.len() < v.skip_mem_cache_threshold ==> w.mem.contains_key(hash) && w.mem[hash] == data
            &&& data.len() >= v.skip_mem_cache_threshold ==> w.mem == v.mem
            &&& other != hash ==> (w.mem.contains_key(other) <==> v.mem.contains_key(other)) && w.mem[other]
                == v.mem[other]
            &&& w.blocks == v.blocks && w.refs == v.refs && w.in_flight == v.in_flight && w.marks == v.marks
            &&& w.max_mem_bytes == v.max_mem_bytes && w.skip_mem_cache_threshold == v.skip_mem_cache_threshold
                && w.ref_ttl == v.ref_ttl && w.disk.max == v.disk.max
        }),
{
    crate::cache::eviction_is_least_recent_first(
        DiskView {
            order: promoted(v.disk.order, hash, data.len() as usize),
            usage: v.disk.usage + data.len() as usize as nat,
            max: v.disk.max,
        },
    );
}

/// A blob whose file was written is the most recently used, unless there is no room for
/// it; a new file counts with its size and an old one does not; what could not be
/// written changes nothing.
pub proof fn a_written_blob_is_the_latest(d: DiskView, hash: Seq<char>, size: usize, write: DiskWrite)
    ensures
        ({
            let (e, gone) = after_write(d, hash, size, write);
            &&& write == DiskWrite::Failed ==> e == d && gone.len() == 0
            &&& write == DiskWrite::Existing ==> e.usage == d.usage && e.order.len() > 0 && e.order.last() == (hash, size)
                && gone.len() == 0
            &&& write == DiskWrite::New && d.usage + size <= d.max ==> e.usage == d.usage + size && e.order.len() > 0
                && e.order.last() == (hash, size) && gone.len() == 0
        }),
{
}

/// A blob whose file was removed is not counted any more.
pub proof fn a_removed_blob_is_not_counted(d: DiskView, hash: Seq<char>, size: usize, i: int)
    requires
        0 <= i < after_remove(d, hash, size).order.len(),
    ensures
        after_remove(d, hash, size).order[i].0 != hash,
        size <= d.usage ==> after_remove(d, hash, size).usage == d.usage - size,
{
    lemma_without(d.order, hash, i);
}

proof fn lemma_without(order: Seq<(Seq<char>, usize)>, key: Seq<char>, i: int)
    requires
        0 <= i < without_key(order, key).len(),
    ensures
        without_key(order, key)[i].0 != key,
    decreases order.len(),
{
    let prev = without_key(order.drop_last(), key);
    if i < prev.len() {
        lemma_without(order.drop_last(), key, i);
    }
}

/// A range that was read is kept where it came from the disk or in full, under its blob,
/// start and length; nothing else changes.
pub proof fn ranges_are_kept_under_their_place(
    v: StoreView,
    hash: Seq<char>,
    start: nat,
    end: nat,
    data: Seq<u8>,
    from_disk: bool,
    other: Seq<char>,
)
    requires
        start < end,
    ensures
        ({
            let w = after_range_read(v, hash, start, end, data, from_disk);
            let key = hash + ":"@ + decimal(start) + ":"@ + decimal((end - start) as nat);
            &&& from_disk || data.len() == end - start ==> w.blocks.contains_key(key) && w.blocks[key] == data
                && w.marks.contains(hash)
            &&& !from_disk && data.len() != end - start ==> w == v
            &&& other != key ==> (w.blocks.contains_key(other) <==> v.blocks.contains_key(other)) && w.blocks[other]
                == v.blocks[other]
            &&& w.mem == v.mem && w.disk == v.disk && w.refs == v.refs
        }),
{
}

/// A range of a blob has the bytes from its start on, up to its end or that of the blob.
pub proof fn ranges_have_the_bytes(data: Seq<u8>, start: nat, end: nat, n: nat, i: int)
    ensures
        range_of(data, start, end).len() == (if start >= end || start >= data.len() {
            0
        } else if end <= data.len() {
            end - start
        } else {
            data.len() - start
        }),
        0 <= i < range_of(data, start, end).len() ==> range_of(data, start, end)[i] == data[start + i],
        suffix_of(data, n).len() == (if n < data.len() {
            n
        } else {
            data.len()
        }),
        0 <= i < suffix_of(data, n).len() ==> suffix_of(data, n)[i] == data[data.len() - suffix_of(data, n).len() + i],
{
}

/// A reference ages with the clock; one from the future has no age.
pub proof fn references_age(now: u64, since: u64)
    ensures
        since <= now ==> elapsed(now, since) == now - since,
        since > now ==> elapsed(now, since) == 0,
{
}

/// A blob of ASCII characters has its file in the directory of its first two.
pub proof fn blobs_lie_in_the_directory_of_their_start(hash: Seq<char>)
    requires
        hash.len() >= 2,
        hash[0] != '/',
        (hash[0] as u32) < 128,
        (hash[1] as u32) < 128,
    ensures
        blob_file(hash) == "blobs/"@ + seq![hash[0], hash[1]] + "/"@ + hash,
{
    assert(hash.take(2) =~= seq![hash[0], hash[1]]);
}

proof fn lemma_put_all(fields: Seq<(Seq<char>, Json)>, more: Seq<(Seq<char>, Json)>, col: Seq<char>)
    ensures
        lookup(put_all(fields, more), col) == (match last_of(more, col) {
            Some(v) => Some(v),
            None => lookup(fields, col),
        }),
    decreases more.len(),
{
    if more.len() > 0 {
        lemma_put_all(fields, more.drop_last(), col);
        put_then_lookup(put_all(fields, more.drop_last()), more.last().0, more.last().1, col);
    }
}

proof fn lemma_file_names()
    ensures
        "name"@.len() == 4 && "mime_type"@.len() == 9 && "blob_hash"@.len() == 9 && "size"@.len() == 4 && "_blob_ref"@.len()
            == 9,
        "name"@[0] == 'n' && "size"@[0] == 's' && "mime_type"@[0] == 'm' && "blob_hash"@[0] == 'b' && "_blob_ref"@[0]
            == '_',
{
    reveal_strlit("name");
    reveal_strlit("mime_type");
    reveal_strlit("blob_hash");
    reveal_strlit("size");
    reveal_strlit("_blob_ref");
}

/// The row of a file tells its name, its media type, its hash, its size and where it is
/// kept; what the caller adds under another name stands beside it, and under one of
/// these names in its place.
pub proof fn file_rows_tell_of_the_file(
    name: Seq<char>,
    mime: Seq<char>,
    hash: Seq<char>,
    size: nat,
    extra: Option<Json>,
    col: Seq<char>,
)
    ensures
        ({
            let row = file_row(name, mime, hash, size, extra);
            let added = match extra {
                Some(Json::Object(more)) => last_of(more, col),
                _ => None,
            };
            &&& added is Some ==> member(row, col) == added
            &&& added is None ==> member(row, col) == (if col == "name"@ {
                Some(Json::String(name))
            } else if col == "mime_type"@ {
                Some(Json::String(mime))
            } else if col == "blob_hash"@ {
                Some(Json::String(hash))
            } else if col == "size"@ {
                Some(count_json(size))
            } else if col == "_blob_ref"@ {
                Some(Json::String("files/"@ + name))
            } else {
                None
            })
        }),
        size <= i64::MAX ==> count_json(size) == Json::Number(Number::Int(size as i64)),
{
    lemma_file_names();
    let base = file_fields(name, mime, hash, size);
    let more = match extra {
        Some(e) => fields_of(e),
        None => Seq::empty(),
    };
    lemma_put_all(base, more, col);
    lemma_key_at(base, col);
    if col == "name"@ {
        lemma_key_at_is(base, col, 0);
    } else if col == "mime_type"@ {
        lemma_key_at_is(base, col, 1);
    } else if col == "blob_hash"@ {
        lemma_key_at_is(base, col, 2);
    } else if col == "size"@ {
        lemma_key_at_is(base, col, 3);
    } else if col == "_blob_ref"@ {
        lemma_key_at_is(base, col, 4);
    }
    if let Some(e) = extra {
        if !(e is Object) {
            assert(more.len() == 0);
        }
    }
}

/// A file is looked for in the first row that the condition holds of and that says where
/// it is: by its reference, else by its hash.
pub proof fn downloads_take_the_first_row(rows: Seq<Json>, holds: Seq<bool>, n: nat)
    requires
        n <= rows.len(),
        n <= holds.len(),
    ensures
        match first_blob(rows, holds, n) {
            Some(b) => exists|i: int|
                0 <= i < n && holds[i] && blob_of(#[trigger] rows[i]) == Some(b) && forall|j: int|
                    0 <= j < i && holds[j] ==> blob_of(#[trigger] rows[j]) is None,
            None => forall|j: int| 0 <= j < n && holds[j] ==> blob_of(#[trigger] rows[j]) is None,
        },
    decreases n,
{
    if n > 0 {
        downloads_take_the_first_row(rows, holds, (n - 1) as nat);
        if first_blob(rows, holds, (n - 1) as nat) is None && holds[n - 1] && blob_of(rows[n - 1]) is Some {
            assert(blob_of(rows[n - 1]) == first_blob(rows, holds, n));
        }
    }
}

/// A row says where its file is by its reference, and where it has none by its hash.
pub proof fn references_come_before_hashes(row: Json, r: Seq<char>, h: Seq<char>)
    ensures
        member(row, "_blob_ref"@) == Some(Json::String(r)) ==> blob_of(row) == Some(r),
        member(row, "_blob_ref"@) is None && member(row, "blob_hash"@) == Some(Json::String(h)) ==> blob_of(row) == Some(h),
        member(row, "_blob_ref"@) is None && member(row, "blob_hash"@) is None ==> blob_of(row) is None,
{
}

/// In an escaped text each single quote has a backslash before it, and nothing else is
/// added.
pub proof fn quotes_are_escaped(a: Seq<char>, b: Seq<char>, c: char)
    ensures
        escaped(a + b) == escaped(a) + escaped(b),
        escaped(seq![c]) == (if c == '\'' {
            seq!['\\', '\'']
        } else {
            seq![c]
        }),
    decreases b.len(),
{
    assert(seq![c].drop_last() =~= Seq::<char>::empty());
    assert(escaped(Seq::<char>::empty()) =~= Seq::<char>::empty());
    assert(escaped(seq![c]) =~= (if c == '\'' {
        seq!['\\', '\'']
    } else {
        seq![c]
    }));
    if b.len() == 0 {
        assert(a + b =~= a);
        assert(escaped(b) =~= Seq::<char>::empty());
        assert(escaped(a) + escaped(b) =~= escaped(a));
    } else {
        let t = b.drop_last();
        quotes_are_escaped(a, t, c);
        assert((a + b).drop_last() =~= a + t);
        assert((a + b).last() == b.last());
        assert(escaped(a + b) =~= escaped(a) + escaped(b));
    }
}

/// The extension of a name is what stands after its last dot, and the whole name where
/// it has none.
pub proof fn extensions_stand_after_the_last_dot(a: Seq<char>, b: Seq<char>)
    requires
        !b.contains('.'),
    ensures
        extension(a.push('.') + b) == b,
        extension(b) == b,
    decreases b.len(),
{
    let s = a.push('.') + b;
    if b.len() == 0 {
        assert(s =~= a.push('.'));
        assert(extension(s) =~= b);
        assert(extension(b) =~= b);
    } else {
        let t = b.drop_last();
        assert(!t.contains('.')) by {
            if t.contains('.') {
                let k = choose|k: int| 0 <= k < t.len() && t[k] == '.';
                assert(b[k] == '.');
            }
        }
        extensions_stand_after_the_last_dot(a, t);
        assert(b[b.len() - 1] == b.last());
        assert(b.last() != '.');
        assert(s.drop_last() =~= a.push('.') + t);
        assert(s.last() == b.last());
        assert(extension(s) =~= b);
        assert(extension(b) =~= b);
    }
}

/// The media type that is given counts; without one that of the name's extension.
pub proof fn given_media_types_count(name: Seq<char>, given: Seq<char>)
    ensures
        mime_for(name, Some(given)) == given,
        extension(name) == "png"@ ==> mime_for(name, None) == "image/png"@,
{
    reveal_strlit("png");
    if extension(name) == "png"@ {
        assert(crate::merge_text::is_ascii_text("png"@));
        assert(crate::text::ascii_lowered("png"@) =~= "png"@);
    }
}

/// An address that starts with `s3://` is that of a remote store; any other is a
/// directory, without `file://` before it.
pub proof fn addresses_name_stores(x: Seq<char>, location: Seq<char>)
    ensures
        store_of("s3://"@ + x) == (true, "s3://"@ + x),
        store_of("file://"@ + x) == (false, x),
        !starts_with(location, "s3://"@) && !starts_with(location, "file://"@) ==> store_of(location) == (false, location),
{
    reveal_strlit("s3://");
    reveal_strlit("file://");
    let a = "s3://"@ + x;
    assert(a.subrange(0, 5) =~= "s3://"@);
    let b = "file://"@ + x;
    assert(b.subrange(0, 7) =~= "file://"@);
    assert(b.skip(7) =~= x);
    assert(b[0] == 'f');
    if starts_with(b, "s3://"@) {
        assert(b.subrange(0, 5)[0] == 's');
    }
}

/// What is stored under `collections/` belongs to the collection that is named next.
pub proof fn references_belong_to_collections(name: Seq<char>, rest: Seq<char>)
    requires
        !name.contains('/'),
    ensures
        collection_of("collections/"@ + name + "/"@ + rest) == Some(name),
        stored_under("collections/"@ + name + "/"@ + rest) == Some(name),
        collection_of(name) == Some(name),
        stored_under(name) is None,
{
    reveal_strlit("collections/");
    reveal_strlit("/");
    let head = "collections/"@;
    let s = head + name + "/"@ + rest;
    assert(s.subrange(0, head.len() as int) =~= head);
    let tail = s.skip(head.len() as int);
    assert(tail =~= name + "/"@ + rest);
    crate::text_laws::lemma_first_slash(name, rest);
    if starts_with(name, head) {
        assert(name.subrange(0, head.len() as int)[11] == '/');
        assert(name.contains('/'));
    }
}

/// A prefix of a hash leads to a blob just where it is long enough and one blob alone
/// has it.
pub proof fn prefixes_lead_to_one_blob(name: Seq<char>, matches: Seq<Seq<char>>, error: Seq<char>)
    requires
        vstd::utf8::encode_utf8(name).len() < 64,
    ensures
        blob_match(name, matches, error).0 <==> vstd::utf8::encode_utf8(name).len() >= 6 && matches.len() == 1,
        blob_match(name, matches, error).0 ==> blob_match(name, matches, error).1 == matches[0],
{
}

/// A dimension and a relationship that were stored are exported as they were given.
pub proof fn stored_parts_are_exported(
    name: Seq<char>,
    a: Seq<char>,
    b: Seq<char>,
    c: Seq<char>,
    d: Dimension,
    r: Relationship,
)
    ensures
        is_dimension(d, dimension_json(name, a, b, c)) ==> d.name@ == name && d.description@ == b && d.data_type@ == c,
        is_relationship(r, relationship_json(name, a, b, c)) ==> r.name@ == name && r.from_collection@ == a
            && r.to_collection@ == b && r.join_condition@ == c && r.join_type@ == "inner"@,
        member(dataset_json(name), "source"@) == Some(Json::String(name)),
{
    reveal_strlit("name");
    reveal_strlit("dataset");
    reveal_strlit("field");
    reveal_strlit("data_type");
    reveal_strlit("from");
    reveal_strlit("to");
    reveal_strlit("condition");
    reveal_strlit("source");
    assert("name"@[0] == 'n' && "dataset"@.len() == 7 && "field"@.len() == 5 && "data_type"@.len() == 9 && "from"@[0] == 'f'
        && "to"@.len() == 2 && "condition"@.len() == 9 && "source"@.len() == 6 && "name"@.len() == 4 && "from"@.len() == 4);
    let x = dimension_json(name, a, b, c)->Object_0;
    lemma_key_at_is(x, "name"@, 0);
    lemma_key_at_is(x, "field"@, 2);
    lemma_key_at_is(x, "data_type"@, 3);
    let y = relationship_json(name, a, b, c)->Object_0;
    lemma_key_at_is(y, "name"@, 0);
    lemma_key_at_is(y, "from"@, 1);
    lemma_key_at_is(y, "to"@, 2);
    lemma_key_at_is(y, "condition"@, 3);
    let z = dataset_json(name)->Object_0;
    lemma_key_at_is(z, "source"@, 1);
}

/// A new layer has its name, its adapters and its setting for reflection.
pub proof fn new_layers_have_their_settings(name: Seq<char>, adapters: Seq<Seq<char>>, reflection: bool)
    ensures
        member(new_meta(name, adapters, reflection), "name"@) == Some(Json::String(name)),
        adapters_of(new_meta(name, adapters, reflection)) == adapters,
        reflects(new_meta(name, adapters, reflection)) == reflection,
{
    reveal_strlit("name");
    reveal_strlit("adapters");
    reveal_strlit("enable_reflection");
    assert("name"@.len() == 4 && "adapters"@.len() == 8 && "enable_reflection"@.len() == 17);
    let x = new_meta(name, adapters, reflection)->Object_0;
    lemma_key_at_is(x, "name"@, 0);
    lemma_key_at_is(x, "adapters"@, 1);
    lemma_key_at_is(x, "enable_reflection"@, 2);
    lemma_texts(adapters);
}

proof fn lemma_texts(texts: Seq<Seq<char>>)
    ensures
        texts_in(text_list(texts)->Array_0) == texts,
    decreases texts.len(),
{
    let items = text_list(texts)->Array_0;
    if texts.len() > 0 {
        lemma_texts(texts.drop_last());
        assert(items.drop_last() =~= text_list(texts.drop_last())->Array_0);
        assert(texts.drop_last().push(texts.last()) =~= texts);
    } else {
        assert(texts_in(items) =~= texts);
    }
}

proof fn lemma_others(texts: Seq<Seq<char>>, t: Seq<char>, x: Seq<char>)
    ensures
        others(texts, t).contains(x) <==> texts.contains(x) && x != t,
    decreases texts.len(),
{
    if texts.len() > 0 {
        let rest = texts.drop_last();
        lemma_others(rest, t, x);
        assert(texts =~= rest.push(texts.last()));
        lemma_push_contains(rest, texts.last(), x);
        lemma_push_contains(others(rest, t), texts.last(), x);
    }
}

/// Adding an adapter adds that one and removing one removes that one; all others stay.
pub proof fn adapters_change_one_by_one(meta: Json, adapter: Seq<char>, other: Seq<char>)
    requires
        meta is Object,
    ensures
        adapters_of(adapter_added(meta, adapter)).contains(other) <==> adapters_of(meta).contains(other) || other == adapter,
        adapters_of(adapter_removed(meta, adapter)).contains(other) <==> adapters_of(meta).contains(other) && other
            != adapter,
{
    let now = adapters_of(meta);
    lemma_push_contains(now, adapter, other);
    lemma_others(now, adapter, other);
    crate::layer::adapters_read_back(meta, now.push(adapter));
    crate::layer::adapters_read_back(meta, others(now, adapter));
}

/// A layer is written for the adapter that is asked for, else for the first of its own.
pub proof fn exports_use_the_first_adapter(meta: Json, asked: Seq<char>, first: Seq<char>, more: Seq<Json>)
    ensures
        export_adapter(meta, Some(asked)) == asked,
        member(meta, "adapters"@) == Some(Json::Array(seq![Json::String(first)] + more)) ==> export_adapter(meta, None)
            == first,
        member(meta, "adapters"@) is None && member(meta, "adapter"@) == Some(Json::String(first)) ==> export_adapter(
            meta,
            None,
        ) == first,
        member(meta, "adapters"@) is None && member(meta, "adapter"@) is None ==> export_adapter(meta, None) == "ossie"@,
{
    assert((seq![Json::String(first)] + more)[0] == Json::String(first));
}

/// The names under a prefix are those that start with it, without it.
pub proof fn names_under_a_prefix_are_listed(names: Seq<Seq<char>>, prefix: Seq<char>, x: Seq<char>)
    ensures
        names_under(names, prefix).contains(x) <==> names.contains(prefix + x),
    decreases names.len(),
{
    if names.len() > 0 {
        let rest = names.drop_last();
        names_under_a_prefix_are_listed(rest, prefix, x);
        let last = names.last();
        assert(names =~= rest.push(last));
        lemma_push_contains(rest, last, prefix + x);
        let cut = last.skip(prefix.len() as int);
        lemma_push_contains(names_under(rest, prefix), cut, x);
        if starts_with(last, prefix) {
            assert(last =~= prefix + cut);
            assert((prefix + x).skip(prefix.len() as int) =~= x);
        } else if last == prefix + x {
            assert(last.subrange(0, prefix.len() as int) =~= prefix);
        }
    }
}

proof fn lemma_layers(names: Seq<Seq<char>>, x: Seq<char>)
    ensures
        layers_of(names).contains(x) <==> exists|i: int| 0 <= i < names.len() && layer_of(#[trigger] names[i]) == Some(x),
    decreases names.len(),
{
    if names.len() > 0 {
        let rest = names.drop_last();
        lemma_layers(rest, x);
        assert(names[names.len() - 1] == names.last());
        if let Some(l) = layer_of(names.last()) {
            lemma_push_contains(layers_of(rest), l, x);
        }
        if exists|i: int| 0 <= i < rest.len() && layer_of(#[trigger] rest[i]) == Some(x) {
            let i = choose|i: int| 0 <= i < rest.len() && layer_of(#[trigger] rest[i]) == Some(x);
            assert(layer_of(names[i]) == Some(x));
        }
        if exists|i: int| 0 <= i < names.len() && layer_of(#[trigger] names[i]) == Some(x) {
            let i = choose|i: int| 0 <= i < names.len() && layer_of(#[trigger] names[i]) == Some(x);
            if i < rest.len() {
                assert(layer_of(rest[i]) == Some(x));
            }
        }
    }
}

/// A layer is listed just where something is stored under its name.
pub proof fn layers_with_parts_are_listed(names: Seq<Seq<char>>, layer: Seq<char>, rest: Seq<char>, i: int)
    requires
        0 <= i < names.len(),
        !layer.contains('/'),
        layer != "_meta"@,
        names[i] == "semantic_layers/"@ + layer + "/"@ + rest,
    ensures
        layers_of(names).contains(layer),
{
    reveal_strlit("semantic_layers/");
    reveal_strlit("/");
    let head = "semantic_layers/"@;
    let s = names[i];
    assert(s.subrange(0, head.len() as int) =~= head);
    let tail = s.skip(head.len() as int);
    assert(tail =~= layer + "/"@ + rest);
    crate::text_laws::lemma_first_slash(layer, rest);
    assert(layer_of(s) == Some(layer));
    lemma_layers(names, layer);
}

/// The key of a row under one column is its text or number; a list has a part for each
/// text or number in it; an index is asked for a value by the same text.
pub proof fn index_keys_are_the_texts(row: Json, field: Seq<char>, s: Seq<char>, n: i64, a: Seq<Json>, b: Seq<Json>)
    ensures
        member(row, field) == Some(Json::String(s)) ==> keys_of_row(row, seq![field]) == seq![s],
        member(row, field) == Some(Json::Number(Number::Int(n))) ==> keys_of_row(row, seq![field]) == seq![
            decimal_int(n as int),
        ],
        member(row, field) is None ==> keys_of_row(row, seq![field]).len() == 0,
        lookup_key(Json::String(s)) == s,
        lookup_key(Json::Number(Number::Int(n))) == decimal_int(n as int),
        list_parts(a + b) == list_parts(a) + list_parts(b),
        list_parts(seq![Json::String(s)]) == seq![s],
        list_parts(seq![Json::Null]).len() == 0,
    decreases b.len(),
{
    let fields = seq![field];
    assert(fields.drop_last() =~= Seq::<Seq<char>>::empty());
    let none = Seq::<Seq<char>>::empty();
    assert(crate::index::row_parts(row, fields.drop_last()) =~= none);
    assert(fields.last() == field);
    let mine = cell_parts(member(row, field));
    assert(crate::index::row_parts(row, fields) == none + mine);
    assert(none + mine =~= mine);
    let one = seq![Json::String(s)];
    assert(one.drop_last() =~= Seq::<Json>::empty());
    assert(list_parts(one.drop_last()) =~= none);
    assert(list_parts(one) =~= seq![s]);
    let null = seq![Json::Null];
    assert(null.drop_last() =~= Seq::<Json>::empty());
    assert(list_parts(null.drop_last()) =~= none);
    if b.len() == 0 {
        assert(a + b =~= a);
        assert(list_parts(b) =~= none);
        assert(list_parts(a) + list_parts(b) =~= list_parts(a));
    } else {
        let t = b.drop_last();
        index_keys_are_the_texts(row, field, s, n, a, t);
        assert((a + b).drop_last() =~= a + t);
        assert((a + b).last() == b.last());
        assert(list_parts(a + b) =~= list_parts(a) + list_parts(b));
    }
}

/// An index tells of no row only for an equality, and only where it has no such key.
pub proof fn indexes_exclude_only_what_they_lack(op: Seq<char>, value: Json, found: bool, keys: Vec<String>)
    ensures
        op != "="@ && op != "=="@ ==> !excluded(op, value, IndexProbe::Single(found)) && !excluded(
            op,
            value,
            IndexProbe::Composite(keys),
        ),
        excluded("="@, value, IndexProbe::Single(found)) <==> !found,
        excluded("=="@, value, IndexProbe::Single(found)) <==> !found,
        excluded("="@, value, IndexProbe::Composite(keys)) <==> forall|i: int|
            0 <= i < keys@.len() ==> !split((#[trigger] keys@[i])@, '\u{1f}').contains(lookup_key(value)),
{
    if !excluded("="@, value, IndexProbe::Composite(keys)) {
        let i = choose|i: int| 0 <= i < keys@.len() && has_component((#[trigger] keys@[i])@, lookup_key(value));
        assert(split(keys@[i]@, '\u{1f}').contains(lookup_key(value)));
    }
}

/// An index is of the type that is asked for, with the settings that are given and
/// defaults for the others; a type that is not known is refused.
pub proof fn indexes_are_planned_as_asked(config: Json, kind: Seq<char>, s: Seq<char>, n: u64)
    ensures
        kind != "simple"@ && kind != "ivf"@ && kind != "hnsw"@ ==> index_plan(kind, Some(config)) is Err,
        index_plan("simple"@, None) == Ok::<PlanView, Seq<char>>(PlanView::Simple { key_fields: seq!["id"@] }),
        index_plan("ivf"@, None) == Ok::<PlanView, Seq<char>>(PlanView::Ivf { n_clusters: 10, metric: "euclidean"@ }),
        index_plan("hnsw"@, None) == Ok::<PlanView, Seq<char>>(
            PlanView::Hnsw { m: 16, ef_construction: 200, metric: "l2"@ },
        ),
        member(config, "key_fields"@) is None && member(config, "key_field"@) == Some(Json::String(s)) ==> index_plan(
            "simple"@,
            Some(config),
        ) == Ok::<PlanView, Seq<char>>(PlanView::Simple { key_fields: seq![s] }),
        member(config, "n_clusters"@) == Some(Json::Number(Number::UInt(n))) && member(config, "metric"@) == Some(
            Json::String(s),
        ) ==> index_plan("ivf"@, Some(config)) == Ok::<PlanView, Seq<char>>(PlanView::Ivf { n_clusters: n, metric: s }),
        member(config, "m"@) == Some(Json::Number(Number::UInt(n))) && member(config, "ef_construction"@) is None
            && member(config, "metric"@) == Some(Json::String(s)) ==> index_plan("hnsw"@, Some(config)) == Ok::<
            PlanView,
            Seq<char>,
        >(PlanView::Hnsw { m: n, ef_construction: 200, metric: s }),
{
    reveal_strlit("simple");
    reveal_strlit("ivf");
    reveal_strlit("hnsw");
    assert("simple"@.len() == 6 && "ivf"@.len() == 3 && "hnsw"@.len() == 4);
}

/// A reference that was noted is known until it is too old; one that was forgotten, or
/// lost to another writer, is not; the others stay as they are.
pub proof fn references_are_known_for_a_while(
    v: StoreView,
    path: Seq<char>,
    other: Seq<char>,
    hash: Seq<char>,
    then: u64,
    now: u64,
)
    requires
        then <= now,
    ensures
        ref_seen(with_ref(v, path, hash, then), path, now) == (if now - then < v.ref_ttl {
            Some(hash)
        } else {
            None
        }),
        ref_seen(without_ref(v, path), path, now) is None,
        after_write_if(v, path, true, hash, then) == with_ref(v, path, hash, then),
        ref_seen(after_write_if(v, path, false, hash, then), path, now) is None,
        other != path ==> ref_seen(with_ref(v, path, hash, then), other, now) == ref_seen(v, other, now) && ref_seen(
            without_ref(v, path),
            other,
            now,
        ) == ref_seen(v, other, now) && ref_seen(after_write_if(v, path, false, hash, then), other, now) == ref_seen(
            v,
            other,
            now,
        ),
        with_ref(v, path, hash, then).mem == v.mem && without_ref(v, path).mem == v.mem && with_ref(v, path, hash, then).disk
            == v.disk && without_ref(v, path).disk == v.disk && with_ref(v, path, hash, then).blocks == v.blocks
            && without_ref(v, path).blocks == v.blocks,
{
}

/// Of several that want a blob at once one fetches it; when it is there the next may.
pub proof fn one_caller_fetches_a_blob(v: StoreView, hash: Seq<char>, other: Seq<char>)
    ensures
        !v.in_flight.contains(hash) ==> fetch_begun(v, hash).1,
        !fetch_begun(fetch_begun(v, hash).0, hash).1,
        fetch_begun(fetch_ended(v, hash), hash).1,
        other != hash ==> fetch_begun(fetch_begun(v, hash).0, other).1 == fetch_begun(v, other).1 && fetch_begun(
            fetch_ended(v, hash),
            other,
        ).1 == fetch_begun(v, other).1,
        fetch_begun(v, hash).0.mem == v.mem && fetch_ended(v, hash).mem == v.mem && fetch_begun(v, hash).0.refs == v.refs
            && fetch_ended(v, hash).refs == v.refs,
{
}

/// The cache is where the caller says, else where the environment says, else where it
/// is by default; the words that turn it off count from either.
pub proof fn the_caller_says_where_the_cache_is(dir: Seq<char>, env: Option<Seq<char>>)
    ensures
        turns_off(dir) <==> dir.len() == 0 || dir == "off"@ || dir == "none"@,
        !turns_off(dir) ==> cache_place(Some(dir), env) == Some(Some(dir)) && cache_place(None, Some(dir)) == Some(Some(dir)),
        turns_off(dir) ==> cache_place(Some(dir), env) is None && cache_place(None, Some(dir)) is None,
        cache_place(None, None) == Some(None::<Seq<char>>),
{
    reveal_strlit("");
    assert(""@ =~= Seq::<char>::empty());
    if dir.len() == 0 {
        assert(dir =~= ""@);
    }
}

/// A store is where the caller says, else at the nearest marker, else right here.
pub proof fn the_caller_says_where_the_store_is(root: Seq<char>, parent: Seq<char>, marked: Option<Seq<char>>)
    ensures
        storage_at(Some(root), marked) == root,
        storage_at(None, Some(parent)) == parent,
        storage_at(None, None) == "."@,
{
}

proof fn lemma_without_key(fields: Seq<(Seq<char>, Json)>, key: Seq<char>, other: Seq<char>)
    ensures
        lookup(without(fields, key), other) == (if other == key {
            None
        } else {
            lookup(fields, other)
        }),
    decreases fields.len(),
{
    if fields.len() > 0 {
        let rest = fields.drop_last();
        lemma_without_key(rest, key, other);
        lemma_lookup_push(rest, fields.last(), other);
        lemma_lookup_push(without(rest, key), fields.last(), other);
        assert(rest.push(fields.last()) =~= fields);
    }
}

proof fn lemma_lookup_push(fields: Seq<(Seq<char>, Json)>, f: (Seq<char>, Json), other: Seq<char>)
    ensures
        lookup(fields.push(f), other) == (match lookup(fields, other) {
            Some(v) => Some(v),
            None => if f.0 == other {
                Some(f.1)
            } else {
                None
            },
        }),
{
    let all = fields.push(f);
    lemma_key_at(fields, other);
    lemma_key_at(all, other);
    match crate::json::key_at(fields, other) {
        Some(i) => {
            assert(all[i] == fields[i]);
        },
        None => {
            if f.0 == other {
                assert(all[fields.len() as int].0 == other);
            }
        },
    }
    if let Some(k) = crate::json::key_at(all, other) {
        if k < fields.len() {
            assert(fields[k] == all[k]);
        }
    }
}

/// Changing the adapters of a layer leaves everything else that is known of it, and what
/// is not said has a default.
pub proof fn layers_keep_their_other_settings(meta: Json, adapters: Seq<Seq<char>>, enabled: bool, other: Seq<char>)
    requires
        meta is Object,
    ensures
        other != "adapter"@ && other != "adapters"@ ==> member(with_adapters(meta, adapters), other) == member(meta, other),
        member(with_adapters(meta, adapters), "adapter"@) is None,
        other != "enable_reflection"@ ==> member(with_reflection(meta, enabled), other) == member(meta, other),
        member(meta, "adapters"@) is None && member(meta, "adapter"@) is None ==> adapters_of(meta) == seq!["ossie"@],
        member(meta, "enable_reflection"@) is None ==> !reflects(meta),
{
    let fields = meta->Object_0;
    reveal_strlit("adapter");
    reveal_strlit("adapters");
    assert("adapter"@.len() == 7 && "adapters"@.len() == 8);
    lemma_without_key(fields, "adapter"@, other);
    lemma_without_key(fields, "adapter"@, "adapter"@);
    let kept = without(fields, "adapter"@);
    put_then_lookup(kept, "adapters"@, text_list(adapters), other);
    put_then_lookup(kept, "adapters"@, text_list(adapters), "adapter"@);
    put_then_lookup(fields, "enable_reflection"@, Json::Bool(enabled), other);
}

/// A definition that says less is exported with defaults: a metric as a number, a
/// dimension as a text.
pub proof fn definitions_have_defaults(m: Metric, d: Dimension, v: Json)
    ensures
        is_metric(m, v) && member(v, "format"@) is None ==> m.format@ == "number"@,
        is_metric(m, v) && member(v, "description"@) is None ==> m.description@ == ""@,
        is_dimension(d, v) && member(v, "data_type"@) is None ==> d.data_type@ == "string"@,
{
}

/// Parts of a layer are stored below it by their kind; what is stored elsewhere, and what
/// is known of a layer itself, names no layer.
pub proof fn parts_are_stored_below_their_layer(layer: Seq<char>, kind: Seq<char>, name: Seq<char>, rest: Seq<char>)
    ensures
        part_ref(layer, kind, name) == "semantic_layers/"@ + layer + "/"@ + kind + "/"@ + name,
        layer_of("semantic_layers/_meta/"@ + rest) is None,
        !starts_with(name, "semantic_layers/"@) ==> layer_of(name) is None,
{
    reveal_strlit("semantic_layers/");
    reveal_strlit("semantic_layers/_meta/");
    reveal_strlit("_meta");
    reveal_strlit("/");
    let head = "semantic_layers/"@;
    let s = "semantic_layers/_meta/"@ + rest;
    assert(s.subrange(0, head.len() as int) =~= head);
    assert(s.skip(head.len() as int) =~= "_meta"@ + "/"@ + rest);
    assert(!"_meta"@.contains('/')) by {
        assert("_meta"@[0] == '_' && "_meta"@[1] == 'm' && "_meta"@[2] == 'e' && "_meta"@[3] == 't' && "_meta"@[4] == 'a');
    }
    crate::text_laws::lemma_first_slash("_meta"@, rest);
}

/// The media type of a name goes by its ending, in any case.
pub proof fn endings_count_in_any_case(name: Seq<char>)
    requires
        crate::merge_text::is_ascii_text(extension(name)),
    ensures
        mime_for(name, None) == mime_of(crate::text::ascii_lowered(extension(name))),
{
}

/// A cache that was just made knows nothing, and has 256 MB of memory for blobs and for
/// ranges, a gigabyte on disk, and believes a reference for five seconds.
pub proof fn new_caches_know_nothing(hash: Seq<char>, path: Seq<char>, now: u64)
    ensures
        !new_store().mem.contains_key(hash) && !new_store().blocks.contains_key(hash) && !new_store().marks.contains(hash),
        ref_seen(new_store(), path, now) is None,
        fetch_begun(new_store(), hash).1,
        new_store().disk.order.len() == 0 && new_store().disk.usage == 0,
        new_store().max_mem_bytes == 256 * 1024 * 1024 && new_store().max_block_bytes == 256 * 1024 * 1024,
        new_store().skip_mem_cache_threshold == 1024 * 1024,
        new_store().disk.max == 1000 * 1000 * 1000,
        new_store().ref_ttl == 5 * 1000 * 1000 * 1000,
{
}

/// A limit that is set is the limit; one in memory starts anew, one on disk keeps what
/// is there.
pub proof fn limits_are_set(v: StoreView, bytes: u64, hash: Seq<char>)
    ensures
        with_disk_limit(v, bytes as nat).disk.max == bytes,
        with_disk_limit(v, bytes as nat).disk.order == v.disk.order && with_disk_limit(v, bytes as nat).disk.usage
            == v.disk.usage && with_disk_limit(v, bytes as nat).mem == v.mem,
        with_mem_limit(v, bytes).max_mem_bytes == bytes,
        !with_mem_limit(v, bytes).mem.contains_key(hash),
        with_mem_limit(v, bytes).disk == v.disk && with_mem_limit(v, bytes).refs == v.refs && with_mem_limit(v, bytes).blocks
            == v.blocks,
{
}

} // verus!
