//! Media: bytes as text, file types, storage addresses.

use vstd::prelude::*;
use vstd::string::*;
use vstd::utf8::{encode_utf8, is_ascii_chars, is_ascii_chars_encode_utf8};
use crate::merge_text::{lowered_text, to_lower};
use crate::text::{chars_of, copy_chars, find, holds, push_chars, same_text, text_of};

verus! {

/// The character of six bits.
pub open spec fn sextet_char(v: nat) -> char {
    if v < 26 {
        (v + 65) as u8 as char
    } else if v < 52 {
        (v + 71) as u8 as char
    } else if v < 62 {
        (v - 4) as u8 as char
    } else if v == 62 {
        '+'
    } else {
        '/'
    }
}

/// The six bits of a byte; other bytes count as zero.
pub open spec fn sextet_value(b: u8) -> nat {
    if 65 <= b <= 90 {
        (b - 65) as nat
    } else if 97 <= b <= 122 {
        (b - 71) as nat
    } else if 48 <= b <= 57 {
        (b + 4) as nat
    } else if b == 43 {
        62
    } else if b == 47 {
        63
    } else {
        0
    }
}

/// Four characters for each three bytes; the last group is filled up with `=`.
pub open spec fn base64_text(data: Seq<u8>) -> Seq<char>
    decreases data.len(),
{
    if data.len() == 0 {
        Seq::empty()
    } else {
        let a = data[0] as nat;
        if data.len() == 1 {
            seq![sextet_char(a / 4), sextet_char((a % 4) * 16), '=', '=']
        } else {
            let b = data[1] as nat;
            if data.len() == 2 {
                seq![
                    sextet_char(a / 4),
                    sextet_char((a % 4) * 16 + b / 16),
                    sextet_char((b % 16) * 4),
                    '=',
                ]
            } else {
                let c = data[2] as nat;
                seq![
                    sextet_char(a / 4),
                    sextet_char((a % 4) * 16 + b / 16),
                    sextet_char((b % 16) * 4 + c / 64),
                    sextet_char(c % 64),
                ] + base64_text(data.skip(3))
            }
        }
    }
}

fn char_of_sextet(v: u8) -> (r: char)
    requires
        v < 64,
    ensures
        r == sextet_char(v as nat),
{
    if v < 26 {
        (v + 65) as char
    } else if v < 52 {
        (v + 71) as char
    } else if v < 62 {
        (v - 4) as char
    } else if v == 62 {
        '+'
    } else {
        '/'
    }
}

/// Encodes bytes as base64.
pub fn base64_encode(data: &[u8]) -> (r: String)
    ensures
        r@ == base64_text(data@),
{
    let mut out: Vec<char> = Vec::new();
    let mut i: usize = 0;
    let ghost all = base64_text(data@);
    proof {
        assert(data@.skip(0) =~= data@);
        assert(out@ + all =~= all);
    }
    while data.len() - i >= 3
        invariant
            i <= data@.len(),
            all == out@ + base64_text(data@.skip(i as int)),
        decreases data@.len() - i,
    {
        let (a, b, c) = (data[i], data[i + 1], data[i + 2]);
        let ghost before = out@;
        let ghost tail = data@.skip(i as int);
        out.push(char_of_sextet(a / 4));
        out.push(char_of_sextet((a % 4) * 16 + b / 16));
        out.push(char_of_sextet((b % 16) * 4 + c / 64));
        out.push(char_of_sextet(c % 64));
        proof {
            assert(tail.skip(3) =~= data@.skip(i as int + 3));
            let group = seq![
                sextet_char(a as nat / 4),
                sextet_char((a as nat % 4) * 16 + b as nat / 16),
                sextet_char((b as nat % 16) * 4 + c as nat / 64),
                sextet_char(c as nat % 64),
            ];
            assert(out@ =~= before + group);
            assert(before + (group + base64_text(tail.skip(3))) =~= out@ + base64_text(
                tail.skip(3),
            ));
        }
        i = i + 3;
    }
    let ghost before = out@;
    let ghost tail = data@.skip(i as int);
    if data.len() - i == 1 {
        let a = data[i];
        out.push(char_of_sextet(a / 4));
        out.push(char_of_sextet((a % 4) * 16));
        out.push('=');
        out.push('=');
        proof {
            assert(out@ =~= before + base64_text(tail));
        }
    } else if data.len() - i == 2 {
        let (a, b) = (data[i], data[i + 1]);
        out.push(char_of_sextet(a / 4));
        out.push(char_of_sextet((a % 4) * 16 + b / 16));
        out.push(char_of_sextet((b % 16) * 4));
        out.push('=');
        proof {
            assert(out@ =~= before + base64_text(tail));
        }
    } else {
        proof {
            assert(out@ =~= before + base64_text(tail));
        }
    }
    text_of(&out)
}

/// Two to the power of the number of bits in hand, which is even and below 8.
pub open spec fn scale_of(bits: nat) -> nat {
    if bits == 0 {
        1
    } else if bits == 2 {
        4
    } else if bits == 4 {
        16
    } else {
        64
    }
}

/// The bytes of the text from `i` on, with `bits` bits in hand that make the
/// number `buf`. A `=` ends the text; bits that make no whole byte are lost.
pub open spec fn base64_bytes(s: Seq<u8>, i: int, buf: nat, bits: nat) -> Seq<u8>
    decreases s.len() - i,
{
    if i >= s.len() || s[i] == 61 {
        Seq::empty()
    } else {
        let next = buf * 64 + sextet_value(s[i]);
        if bits + 6 >= 8 {
            let left = (bits - 2) as nat;
            seq![(next / scale_of(left)) as u8] + base64_bytes(
                s,
                i + 1,
                next % scale_of(left),
                left,
            )
        } else {
            base64_bytes(s, i + 1, next, bits + 6)
        }
    }
}

fn value_of_sextet(b: u8) -> (r: u32)
    ensures
        r == sextet_value(b),
        r < 64,
{
    if 65 <= b && b <= 90 {
        (b - 65) as u32
    } else if 97 <= b && b <= 122 {
        (b - 71) as u32
    } else if 48 <= b && b <= 57 {
        (b + 4) as u32
    } else if b == 43 {
        62
    } else if b == 47 {
        63
    } else {
        0
    }
}

/// Decodes base64. Characters outside the alphabet count as zero bits.
pub fn base64_decode(s: &str) -> (r: Vec<u8>)
    ensures
        r@ == base64_bytes(encode_utf8(s@), 0, 0, 0),
{
    let bytes = s.as_bytes();
    let mut out: Vec<u8> = Vec::new();
    let mut buf: u32 = 0;
    let mut bits: u32 = 0;
    let mut i: usize = 0;
    let ghost all = base64_bytes(bytes@, 0, 0, 0);
    proof {
        assert(out@ + all =~= all);
    }
    while i < bytes.len()
        invariant_except_break
            i <= bytes@.len(),
            bits == 0 || bits == 2 || bits == 4 || bits == 6,
            buf < scale_of(bits as nat),
            all == out@ + base64_bytes(bytes@, i as int, buf as nat, bits as nat),
        invariant
            bytes@ == encode_utf8(s@),
            all == base64_bytes(bytes@, 0, 0, 0),
        ensures
            all == out@,
        decreases bytes@.len() - i,
    {
        let b = bytes[i];
        if b == 61 {
            proof {
                assert(out@ + Seq::<u8>::empty() =~= out@);
            }
            break;
        }
        let next: u32 = buf * 64 + value_of_sextet(b);
        if bits >= 2 {
            let left: u32 = bits - 2;
            let scale: u32 = if left == 0 {
                1
            } else if left == 2 {
                4
            } else {
                16
            };
            let ghost before = out@;
            out.push((next / scale) as u8);
            buf = next % scale;
            bits = left;
            proof {
                let rest = base64_bytes(bytes@, i as int + 1, buf as nat, bits as nat);
                assert(before + (seq![(next / scale) as u8] + rest) =~= out@ + rest);
            }
        } else {
            buf = next;
            bits = bits + 6;
        }
        i = i + 1;
        proof {
            if i == bytes@.len() {
                assert(out@ + base64_bytes(bytes@, i as int, buf as nat, bits as nat) =~= out@);
            }
        }
    }
    out
}

proof fn lemma_sextet_round_trip(v: nat)
    requires
        v < 64,
    ensures
        (sextet_char(v) as u32) < 128,
        sextet_value(sextet_char(v) as u8) == v,
        sextet_char(v) as u8 != 61,
{
}

proof fn lemma_base64_blocks(data: Seq<u8>, s: Seq<u8>, i: int)
    requires
        0 <= i,
        i + base64_text(data).len() == s.len(),
        forall|k: int|
            0 <= k < base64_text(data).len() ==> #[trigger] s[i + k] == base64_text(data)[k] as u8,
    ensures
        base64_bytes(s, i, 0, 0) == data,
    decreases data.len(),
{
    let t = base64_text(data);
    if data.len() == 0 {
        assert(data =~= Seq::<u8>::empty());
    } else {
        let a = data[0] as nat;
        let v0 = a / 4;
        lemma_sextet_round_trip(v0);
        reveal_with_fuel(base64_bytes, 5);
        assert(s[i + 0] == t[0] as u8);
        assert(s[i + 1] == t[1] as u8);
        assert(s[i + 2] == t[2] as u8);
        assert(s[i + 3] == t[3] as u8);
        if data.len() == 1 {
            let v1 = (a % 4) * 16;
            lemma_sextet_round_trip(v1);
            assert((v0 * 64 + v1) / 16 == a);
            assert(base64_bytes(s, i, 0, 0) =~= data);
        } else {
            let b = data[1] as nat;
            let v1 = (a % 4) * 16 + b / 16;
            lemma_sextet_round_trip(v1);
            assert((v0 * 64 + v1) / 16 == a);
            assert((v0 * 64 + v1) % 16 == b / 16);
            if data.len() == 2 {
                let v2 = (b % 16) * 4;
                lemma_sextet_round_trip(v2);
                assert(((b / 16) * 64 + v2) / 4 == b);
                assert(base64_bytes(s, i, 0, 0) =~= data);
            } else {
                let c = data[2] as nat;
                let v2 = (b % 16) * 4 + c / 64;
                let v3 = c % 64;
                lemma_sextet_round_trip(v2);
                lemma_sextet_round_trip(v3);
                assert(((b / 16) * 64 + v2) / 4 == b);
                assert(((b / 16) * 64 + v2) % 4 == c / 64);
                assert(((c / 64) * 64 + v3) / 1 == c);
                assert(((c / 64) * 64 + v3) % 1 == 0);
                let rest = data.skip(3);
                assert forall|k: int| 0 <= k < base64_text(rest).len() implies #[trigger] s[i + 4 + k]
                    == base64_text(rest)[k] as u8 by {
                    assert(s[i + (4 + k)] == t[4 + k] as u8);
                }
                lemma_base64_blocks(rest, s, i + 4);
                assert(base64_bytes(s, i, 0, 0) =~= seq![data[0], data[1], data[2]] + rest);
                assert(seq![data[0], data[1], data[2]] + rest =~= data);
            }
        }
    }
}

proof fn lemma_base64_ascii(data: Seq<u8>)
    ensures
        is_ascii_chars(base64_text(data)),
    decreases data.len(),
{
    let t = base64_text(data);
    if data.len() > 0 {
        let a = data[0] as nat;
        lemma_sextet_round_trip(a / 4);
        lemma_sextet_round_trip((a % 4) * 16);
        if data.len() > 1 {
            let b = data[1] as nat;
            lemma_sextet_round_trip((a % 4) * 16 + b / 16);
            lemma_sextet_round_trip((b % 16) * 4);
            if data.len() > 2 {
                let c = data[2] as nat;
                lemma_sextet_round_trip((b % 16) * 4 + c / 64);
                lemma_sextet_round_trip(c % 64);
                lemma_base64_ascii(data.skip(3));
                assert forall|k: int| 4 <= k < t.len() implies #[trigger] t[k] == base64_text(
                    data.skip(3),
                )[k - 4] by {}
            }
        }
    }
}

/// Decoding base64 gives back the bytes that were encoded.
pub proof fn base64_round_trip(data: Seq<u8>)
    ensures
        base64_bytes(encode_utf8(base64_text(data)), 0, 0, 0) == data,
{
    let t = base64_text(data);
    lemma_base64_ascii(data);
    is_ascii_chars_encode_utf8(t);
    lemma_base64_blocks(data, encode_utf8(t), 0);
}

/// What stands after the last dot; the whole name where there is none.
pub open spec fn extension(name: Seq<char>) -> Seq<char>
    decreases name.len(),
{
    if name.len() == 0 {
        Seq::empty()
    } else if name.last() == '.' {
        Seq::empty()
    } else {
        extension(name.drop_last()).push(name.last())
    }
}

/// The media type of an extension in lower case.
pub open spec fn mime_of(ext: Seq<char>) -> Seq<char> {
    if ext == "png"@ {
        "image/png"@
    } else if ext == "jpg"@ || ext == "jpeg"@ {
        "image/jpeg"@
    } else if ext == "gif"@ {
        "image/gif"@
    } else if ext == "webp"@ {
        "image/webp"@
    } else if ext == "svg"@ {
        "image/svg+xml"@
    } else if ext == "mp4"@ {
        "video/mp4"@
    } else if ext == "avi"@ {
        "video/x-msvideo"@
    } else if ext == "mov"@ {
        "video/quicktime"@
    } else if ext == "webm"@ {
        "video/webm"@
    } else if ext == "mp3"@ {
        "audio/mpeg"@
    } else if ext == "wav"@ {
        "audio/wav"@
    } else if ext == "ogg"@ {
        "audio/ogg"@
    } else if ext == "flac"@ {
        "audio/flac"@
    } else if ext == "pdf"@ {
        "application/pdf"@
    } else if ext == "json"@ {
        "application/json"@
    } else if ext == "csv"@ {
        "text/csv"@
    } else if ext == "txt"@ {
        "text/plain"@
    } else if ext == "html"@ {
        "text/html"@
    } else if ext == "xml"@ {
        "application/xml"@
    } else if ext == "zip"@ {
        "application/zip"@
    } else if ext == "gz"@ || ext == "gzip"@ {
        "application/gzip"@
    } else if ext == "tar"@ {
        "application/x-tar"@
    } else if ext == "parquet"@ {
        "application/vnd.apache.parquet"@
    } else {
        "application/octet-stream"@
    }
}

/// The media type of an extension in lower case.
pub fn mime_of_extension<'a>(ext: &str) -> (r: &'a str)
    ensures
        r@ == mime_of(ext@),
{
    if same_text(ext, "png") {
        "image/png"
    } else if same_text(ext, "jpg") || same_text(ext, "jpeg") {
        "image/jpeg"
    } else if same_text(ext, "gif") {
        "image/gif"
    } else if same_text(ext, "webp") {
        "image/webp"
    } else if same_text(ext, "svg") {
        "image/svg+xml"
    } else if same_text(ext, "mp4") {
        "video/mp4"
    } else if same_text(ext, "avi") {
        "video/x-msvideo"
    } else if same_text(ext, "mov") {
        "video/quicktime"
    } else if same_text(ext, "webm") {
        "video/webm"
    } else if same_text(ext, "mp3") {
        "audio/mpeg"
    } else if same_text(ext, "wav") {
        "audio/wav"
    } else if same_text(ext, "ogg") {
        "audio/ogg"
    } else if same_text(ext, "flac") {
        "audio/flac"
    } else if same_text(ext, "pdf") {
        "application/pdf"
    } else if same_text(ext, "json") {
        "application/json"
    } else if same_text(ext, "csv") {
        "text/csv"
    } else if same_text(ext, "txt") {
        "text/plain"
    } else if same_text(ext, "html") {
        "text/html"
    } else if same_text(ext, "xml") {
        "application/xml"
    } else if same_text(ext, "zip") {
        "application/zip"
    } else if same_text(ext, "gz") || same_text(ext, "gzip") {
        "application/gzip"
    } else if same_text(ext, "tar") {
        "application/x-tar"
    } else if same_text(ext, "parquet") {
        "application/vnd.apache.parquet"
    } else {
        "application/octet-stream"
    }
}

/// What stands after the last dot.
pub fn extension_of(name: &[char]) -> (r: Vec<char>)
    ensures
        r@ == extension(name@),
{
    let mut k: usize = name.len();
    proof {
        assert(name@.take(k as int) =~= name@);
        assert(extension(name@) =~= extension(name@) + name@.skip(k as int));
    }
    while k > 0 && name[k - 1] != '.'
        invariant
            k <= name@.len(),
            extension(name@) == extension(name@.take(k as int)) + name@.skip(k as int),
        decreases k,
    {
        proof {
            assert(name@.take(k as int).drop_last() =~= name@.take(k as int - 1));
            let e = extension(name@.take(k as int - 1));
            assert(e.push(name@[k as int - 1]) + name@.skip(k as int) =~= e + name@.skip(
                k as int - 1,
            ));
        }
        k = k - 1;
    }
    let r = copy_chars(name, k, name.len());
    proof {
        assert(r@ =~= extension(name@.take(k as int)) + name@.skip(k as int));
    }
    r
}

/// Guesses a file's media type by its name.
pub fn guess_mime<'a>(name: &str) -> (r: &'a str)
    ensures
        r@ == mime_of(lowered_text(extension(name@))),
{
    let chars = chars_of(name);
    let ext = extension_of(&chars);
    let text = text_of(&ext);
    let low = to_lower(&text);
    mime_of_extension(&low)
}

/// The parameters to add to an address, in order, with `&` between them.
pub open spec fn s3_params(base: Seq<char>, region: Option<Seq<char>>, endpoint: Option<Seq<char>>) -> Seq<
    char,
> {
    let r = match region {
        Some(x) => if holds(base, "region="@) {
            Seq::empty()
        } else {
            "region="@ + x
        },
        None => Seq::empty(),
    };
    match endpoint {
        Some(x) => if holds(base, "endpoint="@) {
            r
        } else if region is Some && !holds(base, "region="@) {
            r.push('&') + "endpoint="@ + x
        } else {
            "endpoint="@ + x
        },
        None => r,
    }
}

/// Whether there is a parameter to add.
pub open spec fn s3_adds(base: Seq<char>, region: Option<Seq<char>>, endpoint: Option<Seq<char>>) -> bool {
    (region is Some && !holds(base, "region="@)) || (endpoint is Some && !holds(base, "endpoint="@))
}

/// The full address: the base with the parameters that it does not have yet.
pub open spec fn s3_url(base: Seq<char>, region: Option<Seq<char>>, endpoint: Option<Seq<char>>) -> Seq<
    char,
> {
    if !s3_adds(base, region, endpoint) {
        base
    } else {
        base.push(
            if holds(base, "?"@) {
                '&'
            } else {
                '?'
            },
        ) + s3_params(base, region, endpoint)
    }
}

pub open spec fn opt_view(s: Option<&str>) -> Option<Seq<char>> {
    match s {
        Some(x) => Some(x@),
        None => None,
    }
}

fn contains(hay: &[char], needle: &str) -> (r: bool)
    ensures
        r == holds(hay@, needle@),
{
    let n = chars_of(needle);
    find(hay, &n, 0).is_some()
}

/// Builds the full address of an S3 store.
pub fn build_s3_url(base: &str, region: Option<&str>, endpoint: Option<&str>) -> (r: String)
    ensures
        r@ == s3_url(base@, opt_view(region), opt_view(endpoint)),
{
    let chars = chars_of(base);
    let mut params: Vec<char> = Vec::new();
    let mut any: bool = false;
    if let Some(x) = region {
        if !contains(&chars, "region=") {
            let mut p = chars_of("region=");
            let v = chars_of(x);
            push_chars(&mut p, &v);
            params = p;
            any = true;
        }
    }
    if let Some(x) = endpoint {
        if !contains(&chars, "endpoint=") {
            let mut p = chars_of("endpoint=");
            let v = chars_of(x);
            push_chars(&mut p, &v);
            if any {
                let ghost before = params@;
                params.push('&');
                push_chars(&mut params, &p);
                proof {
                    assert(params@ =~= before.push('&') + "endpoint="@ + x@);
                }
            } else {
                params = p;
            }
            any = true;
        }
    }
    if !any {
        return base.to_owned();
    }
    let mut out = chars_of(base);
    if contains(&chars, "?") {
        out.push('&');
    } else {
        out.push('?');
    }
    push_chars(&mut out, &params);
    text_of(&out)
}

} // verus!
