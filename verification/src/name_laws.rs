//! Addresses, endings, policies, words and values: what they stand for.

use vstd::prelude::*;
use vstd::string::*;
use crate::cache::{file_part, range_of};
use crate::change::cells_named;
use crate::infer::names_with;
use crate::json::{float_of, i64_of, json_same, key_at, lemma_key_at, lookup, number_same, Json, Number};
use crate::media::{mime_of, s3_url, sextet_char, sextet_value};
use crate::names::{candidate_lines, endpoint_of, prefix_match, provider_of};
use crate::policy::{policy_at, policy_of};
use crate::search::{in_word, scanned, token_pushed, tokens_of};
use crate::sql::{all_cells, first_names, match_word, miss_word, result_columns, MergeAction};
use crate::text::{decimal, first_at, holds, split_at_each};
use crate::text_laws::lemma_first_at;

verus! {

/// Six bits are a capital, a small letter, a digit, a plus or a slash, in this order.
pub proof fn six_bits_are_a_character(v: nat)
    requires
        v < 64,
    ensures
        v < 26 ==> sextet_char(v) as u32 == 'A' as u32 + v,
        26 <= v < 52 ==> sextet_char(v) as u32 == 'a' as u32 + (v - 26),
        52 <= v < 62 ==> sextet_char(v) as u32 == '0' as u32 + (v - 52),
        v == 62 ==> sextet_char(v) == '+',
        v == 63 ==> sextet_char(v) == '/',
        sextet_value(sextet_char(v) as u8) == v,
{
}

/// The media type of most endings is the ending itself under its family.
pub proof fn media_types_name_their_endings(ext: Seq<char>)
    ensures
        ext == "png"@ || ext == "gif"@ || ext == "webp"@ || ext == "jpeg"@ ==> mime_of(ext) == "image/"@ + ext,
        ext == "mp4"@ || ext == "webm"@ ==> mime_of(ext) == "video/"@ + ext,
        ext == "wav"@ || ext == "ogg"@ || ext == "flac"@ ==> mime_of(ext) == "audio/"@ + ext,
        ext == "pdf"@ || ext == "json"@ || ext == "xml"@ || ext == "zip"@ || ext == "gzip"@ ==> mime_of(ext)
            == "application/"@ + ext,
        ext == "csv"@ || ext == "html"@ ==> mime_of(ext) == "text/"@ + ext,
        mime_of("jpg"@) == mime_of("jpeg"@),
        mime_of("gz"@) == mime_of("gzip"@),
        mime_of("svg"@) == "image/svg+xml"@,
        mime_of("mp3"@) == "audio/mpeg"@,
        mime_of("txt"@) == "text/plain"@,
        mime_of("tar"@) == "application/x-tar"@,
        ext.len() > 7 || ext.len() < 2 ==> mime_of(ext) == "application/octet-stream"@,
{
    reveal_strlit("png");
    reveal_strlit("jpg");
    reveal_strlit("jpeg");
    reveal_strlit("gif");
    reveal_strlit("webp");
    reveal_strlit("svg");
    reveal_strlit("mp4");
    reveal_strlit("avi");
    reveal_strlit("mov");
    reveal_strlit("webm");
    reveal_strlit("mp3");
    reveal_strlit("wav");
    reveal_strlit("ogg");
    reveal_strlit("flac");
    reveal_strlit("pdf");
    reveal_strlit("json");
    reveal_strlit("csv");
    reveal_strlit("txt");
    reveal_strlit("html");
    reveal_strlit("xml");
    reveal_strlit("zip");
    reveal_strlit("gz");
    reveal_strlit("gzip");
    reveal_strlit("tar");
    reveal_strlit("parquet");
    reveal_strlit("image/");
    reveal_strlit("video/");
    reveal_strlit("audio/");
    reveal_strlit("application/");
    reveal_strlit("text/");
    reveal_strlit("image/png");
    reveal_strlit("image/gif");
    reveal_strlit("image/webp");
    reveal_strlit("image/jpeg");
    reveal_strlit("video/mp4");
    reveal_strlit("video/webm");
    reveal_strlit("audio/wav");
    reveal_strlit("audio/ogg");
    reveal_strlit("audio/flac");
    reveal_strlit("application/pdf");
    reveal_strlit("application/json");
    reveal_strlit("application/xml");
    reveal_strlit("application/zip");
    reveal_strlit("application/gzip");
    reveal_strlit("text/csv");
    reveal_strlit("text/html");
    assert("image/png"@ =~= "image/"@ + "png"@);
    assert("image/gif"@ =~= "image/"@ + "gif"@);
    assert("image/webp"@ =~= "image/"@ + "webp"@);
    assert("image/jpeg"@ =~= "image/"@ + "jpeg"@);
    assert("video/mp4"@ =~= "video/"@ + "mp4"@);
    assert("video/webm"@ =~= "video/"@ + "webm"@);
    assert("audio/wav"@ =~= "audio/"@ + "wav"@);
    assert("audio/ogg"@ =~= "audio/"@ + "ogg"@);
    assert("audio/flac"@ =~= "audio/"@ + "flac"@);
    assert("application/pdf"@ =~= "application/"@ + "pdf"@);
    assert("application/json"@ =~= "application/"@ + "json"@);
    assert("application/xml"@ =~= "application/"@ + "xml"@);
    assert("application/zip"@ =~= "application/"@ + "zip"@);
    assert("application/gzip"@ =~= "application/"@ + "gzip"@);
    assert("text/csv"@ =~= "text/"@ + "csv"@);
    assert("text/html"@ =~= "text/"@ + "html"@);
    lemma_endings();
}

proof fn lemma_endings()
    ensures
        "png"@.len() == 3 && "png"@[0] == 'p' && "png"@[1] == 'n',
        "jpg"@.len() == 3 && "jpg"@[0] == 'j' && "jpeg"@.len() == 4 && "jpeg"@[0] == 'j' && "jpeg"@[1] == 'p',
        "gif"@.len() == 3 && "gif"@[0] == 'g',
        "webp"@.len() == 4 && "webp"@[0] == 'w' && "webp"@[3] == 'p' && "webm"@.len() == 4 && "webm"@[0] == 'w' && "webm"@[3]
            == 'm',
        "svg"@.len() == 3 && "svg"@[0] == 's',
        "mp4"@.len() == 3 && "mp4"@[0] == 'm' && "mp4"@[2] == '4' && "mp3"@.len() == 3 && "mp3"@[0] == 'm' && "mp3"@[2]
            == '3' && "mov"@.len() == 3 && "mov"@[0] == 'm' && "mov"@[2] == 'v',
        "avi"@.len() == 3 && "avi"@[0] == 'a',
        "wav"@.len() == 3 && "wav"@[0] == 'w' && "ogg"@.len() == 3 && "ogg"@[0] == 'o' && "flac"@.len() == 4 && "flac"@[0]
            == 'f',
        "pdf"@.len() == 3 && "pdf"@[0] == 'p' && "pdf"@[1] == 'd',
        "json"@.len() == 4 && "json"@[0] == 'j' && "json"@[1] == 's',
        "csv"@.len() == 3 && "csv"@[0] == 'c' && "html"@.len() == 4 && "html"@[0] == 'h',
        "txt"@.len() == 3 && "txt"@[0] == 't' && "txt"@[1] == 'x' && "tar"@.len() == 3 && "tar"@[0] == 't' && "tar"@[1] == 'a',
        "xml"@.len() == 3 && "xml"@[0] == 'x' && "zip"@.len() == 3 && "zip"@[0] == 'z',
        "gz"@.len() == 2 && "gzip"@.len() == 4 && "gzip"@[0] == 'g' && "parquet"@.len() == 7,
{
    reveal_strlit("png");
    reveal_strlit("jpg");
    reveal_strlit("jpeg");
    reveal_strlit("gif");
    reveal_strlit("webp");
    reveal_strlit("svg");
    reveal_strlit("mp4");
    reveal_strlit("avi");
    reveal_strlit("mov");
    reveal_strlit("webm");
    reveal_strlit("mp3");
    reveal_strlit("wav");
    reveal_strlit("ogg");
    reveal_strlit("flac");
    reveal_strlit("pdf");
    reveal_strlit("json");
    reveal_strlit("csv");
    reveal_strlit("txt");
    reveal_strlit("html");
    reveal_strlit("xml");
    reveal_strlit("zip");
    reveal_strlit("gz");
    reveal_strlit("gzip");
    reveal_strlit("tar");
    reveal_strlit("parquet");
}

/// A region and an endpoint are added to an address that does not have them yet, after
/// a question mark, or an ampersand where there is one already.
pub proof fn addresses_get_what_they_lack(base: Seq<char>, r: Seq<char>, e: Seq<char>)
    ensures
        s3_url(base, None, None) == base,
        ({
            let mark = if holds(base, "?"@) {
                seq!['&']
            } else {
                seq!['?']
            };
            let has_region = holds(base, "region="@);
            let has_endpoint = holds(base, "endpoint="@);
            &&& !has_region ==> s3_url(base, Some(r), None) == base + mark + "region="@ + r
            &&& has_region ==> s3_url(base, Some(r), None) == base
            &&& !has_endpoint ==> s3_url(base, None, Some(e)) == base + mark + "endpoint="@ + e
            &&& has_endpoint ==> s3_url(base, None, Some(e)) == base
            &&& !has_region && !has_endpoint ==> s3_url(base, Some(r), Some(e)) == base + mark + "region="@ + r + seq!['&']
                + "endpoint="@ + e
            &&& has_region && !has_endpoint ==> s3_url(base, Some(r), Some(e)) == base + mark + "endpoint="@ + e
            &&& !has_region && has_endpoint ==> s3_url(base, Some(r), Some(e)) == base + mark + "region="@ + r
            &&& has_region && has_endpoint ==> s3_url(base, Some(r), Some(e)) == base
        }),
{
    let mark = if holds(base, "?"@) {
        seq!['&']
    } else {
        seq!['?']
    };
    let a = "region="@;
    let b = "endpoint="@;
    assert(base.push(mark[0]) + (a + r) =~= base + mark + a + r);
    assert(base.push(mark[0]) + (b + e) =~= base + mark + b + e);
    assert(base.push(mark[0]) + ((a + r).push('&') + b + e) =~= base + mark + a + r + seq!['&'] + b + e);
}

/// The endpoint of an address is what follows `endpoint=`; without it there is none, and
/// the provider is known by it.
pub proof fn endpoints_follow_their_name(a: Seq<char>, e: Seq<char>)
    requires
        first_at(a + "endpoint="@ + e, "endpoint="@, 0) == Some(a.len() as int),
        first_at(a + "endpoint="@ + e, "endpoint="@, (a.len() + 9) as int) is None,
        !holds(a, "endpoint="@),
    ensures
        endpoint_of(a + "endpoint="@ + e) == e,
        endpoint_of(a).len() == 0,
{
    reveal_strlit("endpoint=");
    let sep = "endpoint="@;
    let s = a + sep + e;
    let n = a.len() as int;
    let rest = split_at_each(s, sep, n + 9);
    assert(rest =~= seq![s.subrange(n + 9, s.len() as int)]);
    assert(s.subrange(n + 9, s.len() as int) =~= e);
    assert(split_at_each(s, sep, 0) == seq![s.subrange(0, n)] + rest);
    assert(split_at_each(a, sep, 0).len() == 1);
}

/// A store is named by its endpoint: one provider by its domain, local ones by their
/// host, the first of all where there is none.
pub proof fn providers_are_known_by_their_endpoint(e: Seq<char>)
    ensures
        provider_of(e) == "Cloudflare R2"@ <==> holds(e, "r2.cloudflarestorage.com"@),
        provider_of(e) == "MinIO/Local"@ <==> !holds(e, "r2.cloudflarestorage.com"@) && (holds(e, "localhost"@) || holds(
            e,
            "127.0.0.1"@,
        )),
        provider_of(Seq::empty()) == "AWS S3"@,
        e.len() > 0 && !holds(e, "r2.cloudflarestorage.com"@) && !holds(e, "localhost"@) && !holds(e, "127.0.0.1"@)
            ==> provider_of(e) == "S3-compatible"@,
{
    reveal_strlit("Cloudflare R2");
    reveal_strlit("MinIO/Local");
    reveal_strlit("AWS S3");
    reveal_strlit("S3-compatible");
    reveal_strlit("r2.cloudflarestorage.com");
    reveal_strlit("localhost");
    reveal_strlit("127.0.0.1");
    assert("Cloudflare R2"@[0] == 'C' && "MinIO/Local"@[0] == 'M' && "AWS S3"@[0] == 'A' && "S3-compatible"@[0] == 'S');
    let none = Seq::<char>::empty();
    lemma_first_at(none, "r2.cloudflarestorage.com"@, 0);
    lemma_first_at(none, "localhost"@, 0);
    lemma_first_at(none, "127.0.0.1"@, 0);
}

/// Where several blobs have a prefix the answer counts them and has a line for each.
pub proof fn ambiguous_prefixes_list_their_blobs(prefix: Seq<char>, matches: Seq<Seq<char>>, i: int)
    requires
        vstd::utf8::encode_utf8(prefix).len() >= 6,
        matches.len() > 1,
        0 <= i < matches.len(),
    ensures
        !prefix_match(prefix, matches).0,
        exists|before: Seq<char>, after: Seq<char>|
            prefix_match(prefix, matches).1 == #[trigger] (before + "\n  "@ + matches[i] + after),
{
    lemma_candidate(matches, i);
    let (x, y) = choose|x: Seq<char>, y: Seq<char>| candidate_lines(matches) == #[trigger] (x + "\n  "@ + matches[i] + y);
    let head = "Error: ambiguous prefix '"@ + prefix + "': "@ + decimal(matches.len()) + " blobs match"@;
    assert(head + (x + "\n  "@ + matches[i] + y) =~= (head + x) + "\n  "@ + matches[i] + y);
}

proof fn lemma_candidate(matches: Seq<Seq<char>>, i: int)
    requires
        0 <= i < matches.len(),
    ensures
        exists|x: Seq<char>, y: Seq<char>| candidate_lines(matches) == #[trigger] (x + "\n  "@ + matches[i] + y),
    decreases matches.len(),
{
    let rest = matches.drop_last();
    let none = Seq::<char>::empty();
    if i == matches.len() - 1 {
        let x = candidate_lines(rest);
        assert(candidate_lines(matches) =~= x + "\n  "@ + matches[i] + none);
    } else {
        lemma_candidate(rest, i);
        let (x, y) = choose|x: Seq<char>, y: Seq<char>| candidate_lines(rest) == #[trigger] (x + "\n  "@ + rest[i] + y);
        let z = y + "\n  "@ + matches.last();
        assert(candidate_lines(matches) =~= x + "\n  "@ + matches[i] + z);
    }
}

/// The first entry of a collection counts.
pub proof fn the_first_policy_counts(entries: Seq<(Seq<char>, Seq<char>)>, name: Seq<char>)
    ensures
        match policy_of(entries, name) {
            Some(t) => exists|i: int|
                0 <= i < entries.len() && (#[trigger] entries[i]).0 == name && entries[i].1 == t && forall|j: int|
                    0 <= j < i ==> (#[trigger] entries[j]).0 != name,
            None => forall|j: int| 0 <= j < entries.len() ==> (#[trigger] entries[j]).0 != name,
        },
{
    lemma_policy_at(entries, name);
}

proof fn lemma_policy_at(entries: Seq<(Seq<char>, Seq<char>)>, name: Seq<char>)
    ensures
        match policy_at(entries, name) {
            Some(i) => 0 <= i < entries.len() && entries[i].0 == name && forall|j: int|
                0 <= j < i ==> (#[trigger] entries[j]).0 != name,
            None => forall|j: int| 0 <= j < entries.len() ==> (#[trigger] entries[j]).0 != name,
        },
    decreases entries.len(),
{
    if entries.len() > 0 && entries[0].0 != name {
        let rest = entries.drop_first();
        lemma_policy_at(rest, name);
        match policy_at(rest, name) {
            Some(i) => {
                assert forall|j: int| 0 <= j < i + 1 implies (#[trigger] entries[j]).0 != name by {
                    if j > 0 {
                        assert(rest[j - 1] == entries[j]);
                    }
                }
            },
            None => {
                assert forall|j: int| 0 <= j < entries.len() implies (#[trigger] entries[j]).0 != name by {
                    if j > 0 {
                        assert(rest[j - 1] == entries[j]);
                    }
                }
            },
        }
    }
}

proof fn lemma_scanned(a: Seq<char>, c: char, b: Seq<char>)
    requires
        !in_word(c),
    ensures
        scanned(a.push(c) + b).0 == tokens_of(a) + scanned(b).0,
        scanned(a.push(c) + b).1 == scanned(b).1,
    decreases b.len(),
{
    let s = a.push(c) + b;
    if b.len() == 0 {
        assert(s.drop_last() =~= a);
        assert(s.last() == c);
        assert(scanned(b).0 =~= Seq::<Seq<char>>::empty());
        assert(tokens_of(a) + scanned(b).0 =~= tokens_of(a));
    } else {
        let t = b.drop_last();
        lemma_scanned(a, c, t);
        assert(s.drop_last() =~= a.push(c) + t);
        assert(s.last() == b.last());
        let (tokens, word) = scanned(t);
        assert((tokens_of(a) + tokens).push(word) =~= tokens_of(a) + tokens.push(word));
        assert(token_pushed(tokens_of(a) + tokens, word) =~= tokens_of(a) + token_pushed(tokens, word));
    }
}

/// The tokens of two texts with something between them that belongs to no word are those
/// of the one and then those of the other.
pub proof fn tokens_end_between_words(a: Seq<char>, c: char, b: Seq<char>)
    requires
        !in_word(c),
    ensures
        tokens_of(a.push(c) + b) == tokens_of(a) + tokens_of(b),
{
    lemma_scanned(a, c, b);
    let (tokens, word) = scanned(b);
    assert((tokens_of(a) + tokens).push(word) =~= tokens_of(a) + tokens.push(word));
}

proof fn lemma_first_names(names: Seq<Seq<char>>)
    ensures
        first_names(names).no_duplicates(),
        forall|x: Seq<char>| #[trigger] first_names(names).contains(x) <==> names.contains(x),
    decreases names.len(),
{
    if names.len() > 0 {
        let rest = names.drop_last();
        lemma_first_names(rest);
        let last = names.last();
        assert(names =~= rest.push(last));
        assert forall|x: Seq<char>| #[trigger] first_names(names).contains(x) <==> names.contains(x) by {
            crate::merge_laws::lemma_push_contains(rest, last, x);
            crate::merge_laws::lemma_push_contains(first_names(rest), last, x);
            assert(first_names(rest).contains(x) <==> rest.contains(x));
        }
    }
}

/// A result by rows has as columns those that it names and those of its rows, each once.
pub proof fn results_have_every_column_once(columns: Seq<Seq<char>>, rows: Seq<Json>, name: Seq<char>)
    ensures
        (exists|i: int| 0 <= i < result_columns(columns, rows).len() && (#[trigger] result_columns(columns, rows)[i]).0 == name)
            <==> columns.contains(name) || exists|k: int|
            0 <= k < all_cells(rows).len() && (#[trigger] all_cells(rows)[k]).0 == name,
        forall|i: int|
            0 <= i < result_columns(columns, rows).len() ==> (#[trigger] result_columns(columns, rows)[i]).1 == cells_named(
                all_cells(rows),
                result_columns(columns, rows)[i].0,
            ),
{
    let cells = all_cells(rows);
    let names = names_with(first_names(columns), cells);
    lemma_first_names(columns);
    crate::change_laws::lemma_names_with(first_names(columns), cells, name);
    let all = result_columns(columns, rows);
    if exists|i: int| 0 <= i < all.len() && (#[trigger] all[i]).0 == name {
        let i = choose|i: int| 0 <= i < all.len() && (#[trigger] all[i]).0 == name;
        assert(names[i] == name);
        assert(names.contains(name));
    }
    assert(first_names(columns).contains(name) <==> columns.contains(name));
    if names.contains(name) {
        let i = choose|i: int| 0 <= i < names.len() && names[i] == name;
        assert(all[i].0 == name);
    }
}

/// The words of a merge statement: what can be done with a row that matches is to update,
/// delete or skip it, with one that does not to insert or skip it.
pub proof fn merge_words_say_the_actions(a: MergeAction)
    ensures
        match_word(a) == "delete"@ <==> a is Delete,
        match_word(a) == "skip"@ <==> a is Skip,
        match_word(a) == "update"@ <==> !(a is Delete) && !(a is Skip),
        miss_word(a) == "skip"@ <==> a is Skip,
        miss_word(a) == "insert"@ <==> !(a is Skip),
{
    reveal_strlit("delete");
    reveal_strlit("skip");
    reveal_strlit("update");
    reveal_strlit("insert");
    assert("delete"@[0] == 'd' && "skip"@[0] == 's' && "update"@[0] == 'u' && "insert"@[0] == 'i');
}

/// The part of a file that a range asks for is that of its contents.
pub proof fn file_parts_are_the_ranges(data: Seq<u8>, start: nat, end: nat)
    ensures
        match file_part(data.len(), start, end) {
            Some((at, len)) => len > 0 && at + len <= data.len() && data.subrange(at as int, at + len as int) == range_of(
                data,
                start,
                end,
            ),
            None => range_of(data, start, end).len() == 0,
        },
{
    if let Some((at, len)) = file_part(data.len(), start, end) {
        assert(data.subrange(at as int, at + len as int) =~= range_of(data, start, end));
    }
}

/// Values are the same where they are of one kind and hold the same: numbers by their
/// value, a whole one never the same as a float, lists place by place, objects field by
/// field in any order.
pub proof fn same_values_hold_the_same(a: Json, b: Json, x: i64, y: u64, f: u64, t: Seq<char>)
    ensures
        match (a, b) {
            (Json::Null, Json::Null) => json_same(a, b),
            (Json::Bool(p), Json::Bool(q)) => json_same(a, b) <==> p == q,
            (Json::String(p), Json::String(q)) => json_same(a, b) <==> p == q,
            (Json::Array(p), Json::Array(q)) => json_same(a, b) <==> p.len() == q.len() && forall|i: int|
                0 <= i < p.len() ==> json_same(#[trigger] p[i], q[i]),
            (Json::Object(p), Json::Object(q)) => json_same(a, b) <==> p.len() == q.len() && forall|i: int|
                0 <= i < p.len() ==> (lookup(q, (#[trigger] p[i]).0) matches Some(v) && json_same(p[i].1, v)),
            (Json::Number(p), Json::Number(q)) => json_same(a, b) <==> number_same(p, q),
            _ => !json_same(a, b),
        },
        number_same(Number::Int(x), Number::UInt(y)) <==> x == y,
        number_same(Number::UInt(y), Number::Int(x)) <==> x == y,
        !number_same(Number::Int(x), Number::Float(f, t)) && !number_same(Number::Float(f, t), Number::UInt(y)),
{
    match (a, b) {
        (Json::Object(p), Json::Object(q)) => {
            assert forall|k: Seq<char>| key_at(q, k) is Some implies 0 <= #[trigger] key_at(q, k)->0 < q.len() by {
                lemma_key_at(q, k);
            }
            assert forall|k: Seq<char>| true implies #[trigger] lookup(q, k) == (match key_at(q, k) {
                Some(i) => Some(q[i].1),
                None => None,
            }) by {}
            if json_same(a, b) {
                assert forall|i: int| 0 <= i < p.len() implies (lookup(q, (#[trigger] p[i]).0) matches Some(v) && json_same(
                    p[i].1,
                    v,
                )) by {
                    assert(key_at(q, p[i].0) is Some);
                }
            }
            if p.len() == q.len() && forall|i: int|
                0 <= i < p.len() ==> (lookup(q, (#[trigger] p[i]).0) matches Some(v) && json_same(p[i].1, v)) {
                assert forall|i: int| 0 <= i < p.len() implies key_at(q, (#[trigger] p[i]).0) is Some && json_same(
                    p[i].1,
                    q[key_at(q, p[i].0)->0].1,
                ) by {
                    assert(lookup(q, p[i].0) is Some);
                }
            }
        },
        _ => {},
    }
}

/// A number is a whole number where it is one in the signed range, and a float always.
pub proof fn numbers_are_read_by_their_value(x: i64, y: u64, f: u64, t: Seq<char>)
    ensures
        i64_of(Json::Number(Number::Int(x))) == Some(x),
        i64_of(Json::Number(Number::UInt(y))) is Some <==> y <= i64::MAX,
        i64_of(Json::Number(Number::UInt(y))) matches Some(v) ==> v == y,
        i64_of(Json::Number(Number::Float(f, t))) is None,
        float_of(Json::Number(Number::Float(f, t))) == Some(f),
        float_of(Json::Number(Number::Int(x))) == Some(crate::float::f64_of_int(x as int)),
        float_of(Json::Number(Number::UInt(y))) == Some(crate::float::f64_of_int(y as int)),
        i64_of(Json::String(t)) is None && float_of(Json::String(t)) is None && i64_of(Json::Null) is None && float_of(
            Json::Null,
        ) is None,
{
}

} // verus!
