//! Names and addresses: collections, stores, blobs.

use vstd::prelude::*;
use vstd::string::*;
use vstd::utf8::encode_utf8;
use crate::media::opt_view;
use crate::text::{
    char_views, chars_of, copy_chars, copy_text, decimal, find, first_at, has_prefix, holds,
    lemma_bytes_order_total, lemma_bytes_order_transitive, push_chars, same_text, starts_with,
    text_before, text_lt, text_of, text_views, write_decimal,
};
use crate::where_clause::message;

verus! {

/// Where a store is: the address that was given, else the directory that holds
/// the nearest marker, else the current one.
pub open spec fn storage_at(given: Option<Seq<char>>, marked: Option<Seq<char>>) -> Seq<char> {
    match given {
        Some(root) => root,
        None => match marked {
            Some(parent) => parent,
            None => "."@,
        },
    }
}

/// Where a store is: the address that was given, else the directory that holds
/// the nearest marker, else the current one.
pub fn resolve_storage_url(explicit_root: Option<&str>, marker_parent: Option<&str>) -> (r: String)
    ensures
        r@ == (match (explicit_root, marker_parent) {
            (Some(root), _) => root@,
            (None, Some(parent)) => parent@,
            (None, None) => "."@,
        }),
        r@ == storage_at(opt_view(explicit_root), opt_view(marker_parent)),
{
    match explicit_root {
        Some(root) => root.to_owned(),
        None => match marker_parent {
            Some(parent) => parent.to_owned(),
            None => ".".to_owned(),
        },
    }
}

/// A store to open.
#[derive(Debug, PartialEq)]
pub enum StorePlan {
    /// An S3-compatible store, by its address.
    S3(String),
    /// A directory.
    Local(String),
}

/// The store that an address names: `s3://` for S3; anything else is a
/// directory, with or without `file://` before it.
pub open spec fn store_of(location: Seq<char>) -> (bool, Seq<char>) {
    if starts_with(location, "s3://"@) {
        (true, location)
    } else if starts_with(location, "file://"@) {
        (false, location.skip("file://"@.len() as int))
    } else {
        (false, location)
    }
}

pub open spec fn plan_view(p: StorePlan) -> (bool, Seq<char>) {
    match p {
        StorePlan::S3(s) => (true, s@),
        StorePlan::Local(s) => (false, s@),
    }
}

/// Finds out which kind of store an address names.
pub fn open_storage(root: &str) -> (r: StorePlan)
    ensures
        plan_view(r) == store_of(root@),
{
    let chars = chars_of(root);
    let s3 = chars_of("s3://");
    let file = chars_of("file://");
    if has_prefix(&chars, &s3) {
        StorePlan::S3(root.to_owned())
    } else if has_prefix(&chars, &file) {
        let rest = copy_chars(&chars, file.len(), chars.len());
        proof {
            assert(rest@ =~= root@.skip(file@.len() as int));
        }
        StorePlan::Local(text_of(&rest))
    } else {
        StorePlan::Local(root.to_owned())
    }
}

/// Which store to initialise: the root that was given goes before the location.
pub fn cmd_init(location: &str, explicit_root: Option<&str>) -> (r: StorePlan)
    ensures
        plan_view(r) == store_of(
            match explicit_root {
                Some(root) => root@,
                None => location@,
            },
        ),
{
    match explicit_root {
        Some(root) => open_storage(root),
        None => open_storage(location),
    }
}

/// What stands after the first `endpoint=`, up to the next one.
pub open spec fn endpoint_of(url: Seq<char>) -> Seq<char> {
    let parts = crate::text::split_at_each(url, "endpoint="@, 0);
    if parts.len() > 1 {
        parts[1]
    } else {
        Seq::empty()
    }
}

/// Who provides a store, by its endpoint.
pub open spec fn provider_of(endpoint: Seq<char>) -> Seq<char> {
    if holds(endpoint, "r2.cloudflarestorage.com"@) {
        "Cloudflare R2"@
    } else if holds(endpoint, "localhost"@) || holds(endpoint, "127.0.0.1"@) {
        "MinIO/Local"@
    } else if endpoint.len() == 0 {
        "AWS S3"@
    } else {
        "S3-compatible"@
    }
}

/// How an S3 address is shown: provider, bucket, full path.
pub open spec fn s3_description(url: Seq<char>) -> Seq<char> {
    let rest = url.skip("s3://"@.len() as int);
    let k = match first_at(rest, "/"@, 0) {
        Some(i) => i,
        None => rest.len() as int,
    };
    let bucket = rest.subrange(0, k);
    provider_of(endpoint_of(url)) + " ("@ + bucket + ": s3://"@ + bucket + "/"@ + rest.subrange(
        k,
        rest.len() as int,
    ) + ")"@
}

fn has(hay: &[char], needle: &str) -> (r: bool)
    ensures
        r == holds(hay@, needle@),
{
    let n = chars_of(needle);
    find(hay, &n, 0).is_some()
}

fn append(out: &mut Vec<char>, s: &str)
    ensures
        final(out)@ == old(out)@ + s@,
{
    let c = chars_of(s);
    push_chars(out, &c);
}

/// Describes an S3 store; `None` where the address is no S3 address.
pub fn describe_storage(url: &str) -> (r: Option<String>)
    ensures
        match r {
            Some(s) => starts_with(url@, "s3://"@) && s@ == s3_description(url@),
            None => !starts_with(url@, "s3://"@),
        },
{
    let chars = chars_of(url);
    let head = chars_of("s3://");
    if !has_prefix(&chars, &head) {
        return None;
    }
    let rest = copy_chars(&chars, head.len(), chars.len());
    proof {
        assert(rest@ =~= url@.skip(head@.len() as int));
        reveal_strlit("endpoint=");
    }
    let slash = chars_of("/");
    let k: usize = match find(&rest, &slash, 0) {
        Some(i) => i,
        None => rest.len(),
    };
    let bucket = copy_chars(&rest, 0, k);
    let tail = copy_chars(&rest, k, rest.len());
    let mark = chars_of("endpoint=");
    let parts = crate::text::split_text(&chars, &mark);
    let ghost pv = char_views(parts@);
    let endpoint: Vec<char> = if parts.len() > 1 {
        copy_chars(&parts[1], 0, parts[1].len())
    } else {
        Vec::new()
    };
    proof {
        if parts@.len() > 1 {
            assert(pv[1] == parts@[1]@);
            assert(endpoint@ =~= pv[1]);
        } else {
            assert(endpoint@ =~= Seq::<char>::empty());
        }
        assert(pv.len() == parts@.len());
        assert(endpoint@ == endpoint_of(url@));
    }
    let provider: &str = if has(&endpoint, "r2.cloudflarestorage.com") {
        "Cloudflare R2"
    } else if has(&endpoint, "localhost") || has(&endpoint, "127.0.0.1") {
        "MinIO/Local"
    } else if endpoint.len() == 0 {
        "AWS S3"
    } else {
        "S3-compatible"
    };
    let mut out = chars_of(provider);
    append(&mut out, " (");
    push_chars(&mut out, &bucket);
    append(&mut out, ": s3://");
    push_chars(&mut out, &bucket);
    append(&mut out, "/");
    push_chars(&mut out, &tail);
    append(&mut out, ")");
    Some(text_of(&out))
}

/// The collection that a reference belongs to: the part after `collections/`,
/// or the whole name where it has no slash.
pub open spec fn collection_of(name: Seq<char>) -> Option<Seq<char>> {
    if starts_with(name, "collections/"@) {
        let rest = name.skip("collections/"@.len() as int);
        Some(
            rest.subrange(
                0,
                match first_at(rest, "/"@, 0) {
                    Some(i) => i,
                    None => rest.len() as int,
                },
            ),
        )
    } else if holds(name, "/"@) {
        None
    } else {
        Some(name)
    }
}

fn read_collection(name: &str) -> (r: Option<String>)
    ensures
        match r {
            Some(s) => collection_of(name@) == Some(s@),
            None => collection_of(name@) is None,
        },
{
    let chars = chars_of(name);
    let head = chars_of("collections/");
    let slash = chars_of("/");
    if has_prefix(&chars, &head) {
        let rest = copy_chars(&chars, head.len(), chars.len());
        proof {
            assert(rest@ =~= name@.skip(head@.len() as int));
        }
        let k: usize = match find(&rest, &slash, 0) {
            Some(i) => i,
            None => rest.len(),
        };
        let part = copy_chars(&rest, 0, k);
        Some(text_of(&part))
    } else if find(&chars, &slash, 0).is_some() {
        None
    } else {
        Some(copy_text(name))
    }
}

/// In order, without repetition.
pub open spec fn ascending(v: Seq<Seq<char>>) -> bool {
    forall|i: int, j: int|
        0 <= i < j < v.len() ==> text_before(#[trigger] v[i], #[trigger] v[j])
}

/// Adds a text to an ascending list, in its place, unless it is there.
pub fn insert_sorted(v: &mut Vec<String>, s: String)
    requires
        ascending(text_views(old(v)@)),
    ensures
        ascending(text_views(final(v)@)),
        forall|x: Seq<char>|
            #[trigger] text_views(final(v)@).contains(x) <==> text_views(old(v)@).contains(x) || x == s@,
{
    let ghost before = text_views(v@);
    let ghost new = s@;
    let mut i: usize = 0;
    while i < v.len() && text_lt(&v[i], &s)
        invariant
            i <= v@.len(),
            *v == *old(v),
            before == text_views(v@),
            new == s@,
            forall|k: int| 0 <= k < i ==> text_before(#[trigger] before[k], new),
        decreases v@.len() - i,
    {
        proof {
            assert(before[i as int] == v@[i as int]@);
        }
        i = i + 1;
    }
    if i < v.len() && same_text(&v[i], &s) {
        proof {
            assert(before[i as int] == new);
            assert(before.contains(new));
        }
        return ;
    }
    v.insert(i, s);
    proof {
        let after = text_views(v@);
        assert(after =~= before.insert(i as int, new));
        if i < before.len() {
            lemma_bytes_order_total(encode_utf8(before[i as int]), encode_utf8(new));
            vstd::utf8::encode_utf8_decode_utf8(before[i as int]);
            vstd::utf8::encode_utf8_decode_utf8(new);
            assert(text_before(new, before[i as int]));
        }
        assert forall|a: int, b: int| 0 <= a < b < after.len() implies text_before(
            #[trigger] after[a],
            #[trigger] after[b],
        ) by {
            let ia = if a < i {
                a
            } else {
                a - 1
            };
            let ib = if b < i {
                b
            } else {
                b - 1
            };
            if a == i as int {
                if b - 1 > i as int {
                    lemma_bytes_order_transitive(
                        encode_utf8(new),
                        encode_utf8(before[i as int]),
                        encode_utf8(before[b - 1]),
                    );
                }
            } else if b == i as int {
                assert(after[a] == before[a]);
            } else {
                assert(after[a] == before[ia] && after[b] == before[ib]);
            }
        }
        assert forall|x: Seq<char>| #[trigger] after.contains(x) <==> before.contains(x) || x == new by {
            if before.contains(x) {
                let k = choose|k: int| 0 <= k < before.len() && before[k] == x;
                if k < i {
                    assert(after[k] == x);
                } else {
                    assert(after[k + 1] == x);
                }
            }
            if x == new {
                assert(after[i as int] == x);
            }
            if after.contains(x) {
                let k = choose|k: int| 0 <= k < after.len() && after[k] == x;
                if k < i {
                    assert(before[k] == x);
                } else if k > i {
                    assert(before[k - 1] == x);
                }
            }
        }
    }
}

/// Some name belongs to a collection.
pub open spec fn names_collection(names: Seq<Seq<char>>, c: Seq<char>) -> bool {
    exists|i: int| 0 <= i < names.len() && collection_of(#[trigger] names[i]) == Some(c)
}

/// Lists the collections that references belong to, in order, each once.
pub fn collection_names(names: &[String]) -> (r: Vec<String>)
    ensures
        ascending(text_views(r@)),
        forall|c: Seq<char>|
            #[trigger] text_views(r@).contains(c) <==> names_collection(text_views(names@), c),
{
    let ghost all = text_views(names@);
    let mut out: Vec<String> = Vec::new();
    let mut i: usize = 0;
    while i < names.len()
        invariant
            i <= names@.len(),
            all == text_views(names@),
            ascending(text_views(out@)),
            forall|c: Seq<char>|
                #[trigger] text_views(out@).contains(c) <==> names_collection(all.take(i as int), c),
        decreases names@.len() - i,
    {
        let ghost before = text_views(out@);
        let found = read_collection(&names[i]);
        let ghost fv = collection_of(all[i as int]);
        if let Some(c) = found {
            insert_sorted(&mut out, c);
        }
        proof {
            let prev = all.take(i as int);
            let next = all.take(i as int + 1);
            assert forall|c: Seq<char>| #[trigger] text_views(out@).contains(c) <==> names_collection(
                next,
                c,
            ) by {
                if names_collection(prev, c) {
                    let k = choose|k: int|
                        0 <= k < prev.len() && collection_of(#[trigger] prev[k]) == Some(c);
                    assert(next[k] == prev[k]);
                    assert(before.contains(c));
                }
                if names_collection(next, c) {
                    let k = choose|k: int|
                        0 <= k < next.len() && collection_of(#[trigger] next[k]) == Some(c);
                    if k < i {
                        assert(prev[k] == next[k]);
                    }
                }
                if fv == Some(c) {
                    assert(next[i as int] == all[i as int]);
                }
            }
        }
        i = i + 1;
    }
    proof {
        assert(all.take(i as int) =~= all);
    }
    out
}

/// The collection that a reference is stored under.
pub open spec fn stored_under(name: Seq<char>) -> Option<Seq<char>> {
    if starts_with(name, "collections/"@) {
        collection_of(name)
    } else {
        None
    }
}

/// Some name is stored under a collection.
pub open spec fn stores_collection(names: Seq<Seq<char>>, c: Seq<char>) -> bool {
    exists|i: int| 0 <= i < names.len() && stored_under(#[trigger] names[i]) == Some(c)
}

/// Lists the collections that references are stored under, in order, each once.
pub fn stored_collections(names: &[String]) -> (r: Vec<String>)
    ensures
        ascending(text_views(r@)),
        forall|c: Seq<char>|
            #[trigger] text_views(r@).contains(c) <==> stores_collection(text_views(names@), c),
{
    let ghost all = text_views(names@);
    let head = chars_of("collections/");
    let mut out: Vec<String> = Vec::new();
    let mut i: usize = 0;
    while i < names.len()
        invariant
            i <= names@.len(),
            all == text_views(names@),
            head@ == "collections/"@,
            ascending(text_views(out@)),
            forall|c: Seq<char>|
                #[trigger] text_views(out@).contains(c) <==> stores_collection(all.take(i as int), c),
        decreases names@.len() - i,
    {
        let ghost before = text_views(out@);
        let ghost fv = stored_under(all[i as int]);
        let chars = chars_of(&names[i]);
        if has_prefix(&chars, &head) {
            if let Some(c) = read_collection(&names[i]) {
                insert_sorted(&mut out, c);
            }
        }
        proof {
            let prev = all.take(i as int);
            let next = all.take(i as int + 1);
            assert forall|c: Seq<char>| #[trigger] text_views(out@).contains(c) <==> stores_collection(
                next,
                c,
            ) by {
                if stores_collection(prev, c) {
                    let k = choose|k: int|
                        0 <= k < prev.len() && stored_under(#[trigger] prev[k]) == Some(c);
                    assert(next[k] == prev[k]);
                    assert(before.contains(c));
                }
                if stores_collection(next, c) {
                    let k = choose|k: int|
                        0 <= k < next.len() && stored_under(#[trigger] next[k]) == Some(c);
                    if k < i {
                        assert(prev[k] == next[k]);
                    }
                }
                if fv == Some(c) {
                    assert(next[i as int] == all[i as int]);
                }
            }
        }
        i = i + 1;
    }
    proof {
        assert(all.take(i as int) =~= all);
    }
    out
}

/// The shortest prefix of a blob's hash that is looked up.
pub const MIN_PREFIX: usize = 6;

/// The length of a full hash.
pub const HASH_LEN: usize = 64;

/// What a hash or a prefix of one leads to.
#[derive(Debug, PartialEq)]
pub enum BlobMatch {
    /// The one blob with this prefix.
    Found(String),
    /// The message for no blob, or for more than one.
    Refused(String),
}

/// The candidates, each on a line of its own.
pub open spec fn candidate_lines(matches: Seq<Seq<char>>) -> Seq<char>
    decreases matches.len(),
{
    if matches.len() == 0 {
        Seq::empty()
    } else {
        candidate_lines(matches.drop_last()) + "\n  "@ + matches.last()
    }
}

/// What a name that is no blob's own leads to, given the blobs that start with
/// it: one as long as a hash to the error of reading it, a short prefix to none,
/// else to the one blob that has it.
pub open spec fn blob_match(name: Seq<char>, matches: Seq<Seq<char>>, error: Seq<char>) -> (bool, Seq<char>) {
    if encode_utf8(name).len() >= HASH_LEN {
        (false, "Error: '"@ + name + "': "@ + error)
    } else {
        prefix_match(name, matches)
    }
}

/// What a prefix leads to: a short prefix to none, else to the one blob that
/// has it.
pub open spec fn prefix_match(prefix: Seq<char>, matches: Seq<Seq<char>>) -> (bool, Seq<char>) {
    if encode_utf8(prefix).len() < MIN_PREFIX || matches.len() == 0 {
        (false, "Error: no blob with prefix '"@ + prefix + "'"@)
    } else if matches.len() == 1 {
        (true, matches[0])
    } else {
        (
            false,
            "Error: ambiguous prefix '"@ + prefix + "': "@ + decimal(matches.len())
                + " blobs match"@ + candidate_lines(matches),
        )
    }
}

pub open spec fn match_view(m: BlobMatch) -> (bool, Seq<char>) {
    match m {
        BlobMatch::Found(s) => (true, s@),
        BlobMatch::Refused(s) => (false, s@),
    }
}

/// Resolves the name of a blob that could not be read as it is.
pub fn resolve_blob(name: &str, matches: &[String], error: &str) -> (r: BlobMatch)
    ensures
        match_view(r) == blob_match(name@, text_views(matches@), error@),
{
    if name.as_bytes().len() >= HASH_LEN {
        let mut out = chars_of("Error: '");
        append(&mut out, name);
        append(&mut out, "': ");
        append(&mut out, error);
        BlobMatch::Refused(text_of(&out))
    } else {
        resolve_prefix(name, matches)
    }
}

/// Resolves a prefix, given the blobs that have it.
pub fn resolve_prefix(prefix: &str, matches: &[String]) -> (r: BlobMatch)
    ensures
        match_view(r) == prefix_match(prefix@, text_views(matches@)),
{
    let ghost all = text_views(matches@);
    let chars = chars_of(prefix);
    if prefix.as_bytes().len() < MIN_PREFIX || matches.len() == 0 {
        return BlobMatch::Refused(message("Error: no blob with prefix '", &chars, "'"));
    }
    if matches.len() == 1 {
        proof {
            assert(all[0] == matches@[0]@);
        }
        return BlobMatch::Found(copy_text(&matches[0]));
    }
    let mut out = chars_of("Error: ambiguous prefix '");
    push_chars(&mut out, &chars);
    append(&mut out, "': ");
    let n = write_decimal(matches.len() as u64);
    push_chars(&mut out, &n);
    append(&mut out, " blobs match");
    let ghost start = out@;
    let mut i: usize = 0;
    proof {
        assert(all.take(0) =~= Seq::<Seq<char>>::empty());
        assert(start + candidate_lines(all.take(0)) =~= start);
    }
    while i < matches.len()
        invariant
            i <= matches@.len(),
            all == text_views(matches@),
            out@ == start + candidate_lines(all.take(i as int)),
        decreases matches@.len() - i,
    {
        let ghost lines = candidate_lines(all.take(i as int));
        proof {
            assert(all.take(i as int + 1).drop_last() =~= all.take(i as int));
            assert(all.take(i as int + 1).last() == all[i as int]);
        }
        append(&mut out, "\n  ");
        append(&mut out, &matches[i]);
        proof {
            assert(out@ =~= start + (lines + "\n  "@ + all[i as int]));
        }
        i = i + 1;
    }
    proof {
        assert(all.take(i as int) =~= all);
    }
    BlobMatch::Refused(text_of(&out))
}

} // verus!
