//! Files in collections: the row that is stored for a file, and how a file is
//! found again.

use vstd::prelude::*;
use vstd::string::*;
use crate::json::{
    copy_json, field_views, json_views, lemma_object_view, lemma_key_at, member, put, put_field,
    Json, JsonNumber, JsonValue, Number,
};
use crate::media::{guess_mime, mime_of, extension};
use crate::merge::fields_of;
use crate::merge_text::{lowered_text, opt_str};
use crate::rows::{hex_digits, write_hex};
use crate::text::{chars_of, copy_text, push_chars, text_of};

verus! {

/// A count as a JSON number.
pub open spec fn count_json(n: nat) -> Json {
    if n <= i64::MAX {
        Json::Number(Number::Int(n as i64))
    } else {
        Json::Number(Number::UInt(n as u64))
    }
}

/// The fields with others put over them.
pub open spec fn put_all(fields: Seq<(Seq<char>, Json)>, more: Seq<(Seq<char>, Json)>) -> Seq<(Seq<char>, Json)>
    decreases more.len(),
{
    if more.len() == 0 {
        fields
    } else {
        put(put_all(fields, more.drop_last()), more.last().0, more.last().1)
    }
}

/// Where a file is kept by its name.
pub open spec fn file_ref(name: Seq<char>) -> Seq<char> {
    "files/"@ + name
}

/// What is known of a file by itself.
pub open spec fn file_fields(name: Seq<char>, mime: Seq<char>, hash: Seq<char>, size: nat) -> Seq<
    (Seq<char>, Json),
> {
    seq![
        ("name"@, Json::String(name)),
        ("mime_type"@, Json::String(mime)),
        ("blob_hash"@, Json::String(hash)),
        ("size"@, count_json(size)),
        ("_blob_ref"@, Json::String(file_ref(name))),
    ]
}

/// The media type of a file: the one that is given, else the one that its name
/// suggests.
pub open spec fn mime_for(name: Seq<char>, given: Option<Seq<char>>) -> Seq<char> {
    match given {
        Some(m) => m,
        None => mime_of(lowered_text(extension(name))),
    }
}

/// The row that is stored for a file; what the caller adds goes over it.
pub open spec fn file_row(
    name: Seq<char>,
    mime: Seq<char>,
    hash: Seq<char>,
    size: nat,
    extra: Option<Json>,
) -> Json {
    Json::Object(
        put_all(
            file_fields(name, mime, hash, size),
            match extra {
                Some(e) => fields_of(e),
                None => Seq::empty(),
            },
        ),
    )
}

pub open spec fn extra_view(extra: Option<&JsonValue>) -> Option<Json> {
    match extra {
        Some(e) => Some(e@),
        None => None,
    }
}

fn text_field(key: &str, value: &str) -> (r: (String, JsonValue))
    ensures
        (r.0@, r.1@) == (key@, Json::String(value@)),
{
    (copy_text(key), JsonValue::String(copy_text(value)))
}

/// Where a file is kept by its name.
pub fn file_reference(name: &str) -> (r: String)
    ensures
        r@ == file_ref(name@),
{
    let mut out = chars_of("files/");
    let c = chars_of(name);
    push_chars(&mut out, &c);
    text_of(&out)
}

/// Makes the row that is stored for a file.
pub fn upload_row(
    name: &str,
    mime_type: Option<&str>,
    blob_hash: &str,
    size: usize,
    extra: Option<&JsonValue>,
) -> (r: JsonValue)
    ensures
        r@ == file_row(
            name@,
            mime_for(name@, opt_str(mime_type)),
            blob_hash@,
            size as nat,
            extra_view(extra),
        ),
{
    let mime: &str = match mime_type {
        Some(m) => m,
        None => guess_mime(name),
    };
    let count: JsonValue = if size as u64 <= 0x7FFF_FFFF_FFFF_FFFF {
        JsonValue::Number(JsonNumber::Int(size as i64))
    } else {
        JsonValue::Number(JsonNumber::UInt(size as u64))
    };
    let ghost count_view = count@;
    let mut fields: Vec<(String, JsonValue)> = Vec::new();
    fields.push(text_field("name", name));
    fields.push(text_field("mime_type", mime));
    fields.push(text_field("blob_hash", blob_hash));
    let ghost f3 = field_views(fields@);
    fields.push((copy_text("size"), count));
    let ghost f4 = field_views(fields@);
    let reference = file_reference(name);
    fields.push(text_field("_blob_ref", &reference));
    let ghost base = file_fields(name@, mime@, blob_hash@, size as nat);
    proof {
        assert(f3 =~= base.take(3));
        assert(f4 =~= f3.push(("size"@, count_view)));
        assert(f4 =~= base.take(4));
        assert(field_views(fields@) =~= f4.push(("_blob_ref"@, Json::String(reference@))));
        assert(field_views(fields@) =~= base);
    }
    if let Some(JsonValue::Object(more)) = extra {
        proof {
            lemma_object_view(*more);
        }
        let ghost mv = field_views(more@);
        let mut i: usize = 0;
        proof {
            assert(mv.take(0) =~= Seq::<(Seq<char>, Json)>::empty());
        }
        while i < more.len()
            invariant
                i <= more@.len(),
                mv == field_views(more@),
                field_views(fields@) == put_all(base, mv.take(i as int)),
            decreases more@.len() - i,
        {
            proof {
                assert(mv.take(i as int + 1).drop_last() =~= mv.take(i as int));
                assert(mv.take(i as int + 1).last() == mv[i as int]);
            }
            let v = copy_json(&more[i].1);
            put_field(&mut fields, &more[i].0, v);
            i = i + 1;
        }
        proof {
            assert(mv.take(i as int) =~= mv);
        }
    }
    proof {
        lemma_object_view(fields);
    }
    JsonValue::Object(fields)
}

/// A text with a backslash before each single quote.
pub open spec fn escaped(s: Seq<char>) -> Seq<char>
    decreases s.len(),
{
    if s.len() == 0 {
        Seq::empty()
    } else if s.last() == '\'' {
        escaped(s.drop_last()).push('\\').push('\'')
    } else {
        escaped(s.drop_last()).push(s.last())
    }
}

/// The condition by which a file is looked up: the one that is given, else that
/// on its name.
pub fn download_condition(name: Option<&str>, condition: Option<&str>) -> (r: Result<String, String>)
    ensures
        match r {
            Ok(s) => match (condition, name) {
                (Some(w), _) => s@ == w@,
                (None, Some(n)) => s@ == "name = '"@ + escaped(n@) + "'"@,
                (None, None) => false,
            },
            Err(e) => condition is None && name is None && e@
                == "Must provide either name= or where= to download()"@,
        },
{
    match condition {
        Some(w) => Ok(copy_text(w)),
        None => match name {
            Some(n) => {
                let chars = chars_of(n);
                let mut text: Vec<char> = Vec::new();
                let mut i: usize = 0;
                proof {
                    assert(chars@.take(0) =~= Seq::<char>::empty());
                }
                while i < chars.len()
                    invariant
                        i <= chars@.len(),
                        text@ == escaped(chars@.take(i as int)),
                    decreases chars@.len() - i,
                {
                    proof {
                        assert(chars@.take(i as int + 1).drop_last() =~= chars@.take(i as int));
                        assert(chars@.take(i as int + 1).last() == chars@[i as int]);
                    }
                    if chars[i] == '\'' {
                        text.push('\\');
                    }
                    text.push(chars[i]);
                    i = i + 1;
                }
                proof {
                    assert(chars@.take(i as int) =~= chars@);
                }
                Ok(crate::where_clause::message("name = '", &text, "'"))
            },
            None => Err("Must provide either name= or where= to download()".to_owned()),
        },
    }
}

/// Where a row says that its file is: by reference, else by hash.
pub open spec fn blob_of(row: Json) -> Option<Seq<char>> {
    match member(row, "_blob_ref"@) {
        Some(Json::String(s)) => Some(s),
        _ => match member(row, "blob_hash"@) {
            Some(Json::String(s)) => Some(s),
            _ => None,
        },
    }
}

/// The file of the first of `n` rows that meets the condition and has one.
pub open spec fn first_blob(rows: Seq<Json>, holds: Seq<bool>, n: nat) -> Option<Seq<char>>
    decreases n,
{
    if n == 0 {
        None
    } else {
        match first_blob(rows, holds, (n - 1) as nat) {
            Some(b) => Some(b),
            None => if n <= holds.len() && holds[n - 1] {
                blob_of(rows[n - 1])
            } else {
                None
            },
        }
    }
}

fn read_blob_ref(row: &JsonValue) -> (r: Option<String>)
    ensures
        match r {
            Some(s) => blob_of(row@) == Some(s@),
            None => blob_of(row@) is None,
        },
{
    match row.get("_blob_ref") {
        Some(JsonValue::String(s)) => Some(copy_text(s)),
        _ => match row.get("blob_hash") {
            Some(JsonValue::String(s)) => Some(copy_text(s)),
            _ => None,
        },
    }
}

/// Finds the file to download. `holds` tells which rows meet the condition.
pub fn download_target(rows: &Vec<JsonValue>, holds: &Vec<bool>) -> (r: Option<String>)
    ensures
        match r {
            Some(s) => first_blob(json_views(rows@), holds@, rows@.len()) == Some(s@),
            None => first_blob(json_views(rows@), holds@, rows@.len()) is None,
        },
{
    let ghost all = json_views(rows@);
    let mut found: Option<String> = None;
    let mut i: usize = 0;
    while i < rows.len()
        invariant
            i <= rows@.len(),
            all == json_views(rows@),
            match found {
                Some(s) => first_blob(all, holds@, i as nat) == Some(s@),
                None => first_blob(all, holds@, i as nat) is None,
            },
        decreases rows@.len() - i,
    {
        if found.is_none() && i < holds.len() && holds[i] {
            found = read_blob_ref(&rows[i]);
        }
        i = i + 1;
    }
    found
}

/// A file that was stored under its name is found by it, unless the caller's own
/// fields say otherwise.
pub proof fn stored_file_is_found(name: Seq<char>, mime: Seq<char>, hash: Seq<char>, size: nat)
    ensures
        blob_of(file_row(name, mime, hash, size, None)) == Some(file_ref(name)),
        member(file_row(name, mime, hash, size, None), "name"@) == Some(Json::String(name)),
{
    let fields = file_fields(name, mime, hash, size);
    reveal_strlit("name");
    reveal_strlit("mime_type");
    reveal_strlit("blob_hash");
    reveal_strlit("size");
    reveal_strlit("_blob_ref");
    lemma_key_at(fields, "name"@);
    lemma_key_at(fields, "_blob_ref"@);
    assert(fields[0].0 == "name"@);
    assert(fields[1].0 == "mime_type"@);
    assert(fields[2].0 == "blob_hash"@);
    assert(fields[3].0 == "size"@);
    assert(fields[4].0 == "_blob_ref"@);
    assert("mime_type"@[0] != "_blob_ref"@[0]);
    assert("blob_hash"@[0] != "_blob_ref"@[0]);
    assert("name"@.len() != "_blob_ref"@.len());
    assert("size"@.len() != "_blob_ref"@.len());
}

/// The digits of an id made from a time stamp: sixteen, or more where it takes
/// more.
pub open spec fn hex_len(v: nat) -> nat
    decreases v,
{
    if v < 16 {
        1
    } else {
        hex_len(v / 16) + 1
    }
}

fn count_hex(v: u128) -> (r: usize)
    ensures
        r == hex_len(v as nat),
        r <= 32,
{
    let mut n: usize = 1;
    let mut x: u128 = v;
    proof {
        lemma_hex_len_bound(v as nat);
    }
    while x >= 16
        invariant
            hex_len(v as nat) == n - 1 + hex_len(x as nat),
            hex_len(v as nat) <= 32,
            n >= 1,
        decreases x,
    {
        x = x / 16;
        proof {
            assert(hex_len(x as nat) >= 1);
        }
        n = n + 1;
    }
    n
}

pub open spec fn pow16(n: nat) -> nat
    decreases n,
{
    if n == 0 {
        1
    } else {
        16 * pow16((n - 1) as nat)
    }
}

proof fn lemma_hex_len_bound(v: nat)
    requires
        v <= u128::MAX,
    ensures
        hex_len(v) <= 32,
{
    assert(pow16(32) == 0x1_0000_0000_0000_0000_0000_0000_0000_0000) by {
        reveal_with_fuel(pow16, 33);
    }
    lemma_hex_len(v, 32);
}

proof fn lemma_hex_len(v: nat, n: nat)
    requires
        n > 0,
        v < pow16(n),
    ensures
        hex_len(v) <= n,
    decreases n,
{
    if v >= 16 {
        if n == 1 {
            reveal_with_fuel(pow16, 2);
        } else {
            assert(v / 16 < pow16((n - 1) as nat)) by (nonlinear_arith)
                requires
                    v < 16 * pow16((n - 1) as nat),
            ;
            lemma_hex_len(v / 16, (n - 1) as nat);
        }
    }
}

fn write_wide_hex(v: u128, n: usize) -> (r: Vec<char>)
    ensures
        r@ == hex_digits(v as nat, n as nat),
    decreases n,
{
    if n == 0 {
        Vec::new()
    } else {
        let mut out = write_wide_hex(v / 16, n - 1);
        let d = write_hex((v % 16) as u64, 1);
        proof {
            assert(hex_digits(v as nat % 16, 1) =~= seq![crate::rows::hex_char(v as nat % 16)]) by {
                reveal_with_fuel(hex_digits, 2);
            }
        }
        out.push(d[0]);
        out
    }
}

/// Makes an id of a time stamp in nanoseconds: its hexadecimal digits, at least
/// sixteen.
pub fn chrono_like_id(nanos: u128) -> (r: String)
    ensures
        r@ == hex_digits(
            nanos as nat,
            if hex_len(nanos as nat) < 16 {
                16
            } else {
                hex_len(nanos as nat)
            },
        ),
{
    let n = count_hex(nanos);
    let digits: usize = if n < 16 {
        16
    } else {
        n
    };
    let out = write_wide_hex(nanos, digits);
    text_of(&out)
}

} // verus!
