//! Whole blobs: the header, the schema, the stats and the payloads.

use vstd::prelude::*;
use vstd::slice::slice_subrange;
use vstd::string::*;
use crate::bytes::{copy_bytes, le_at, read_le, read_u32, same_bytes};
use crate::constants::{magic, pnd2_magic, COMPRESSION_NONE, COMPRESSION_ZSTD, FLAG_HAS_STATS, HEADER_LEN,
    PND2_VERSION};
use crate::decode::{column_view, decode_column};
use crate::numeral::lemma_pow2_8;
use crate::parser::{stat_len, PND2Parser};
use crate::text::{chars_of, decimal, push_chars, text_of, write_decimal};
use crate::types::{ColumnView, PondColumn};

verus! {

/// Why a blob was refused.
#[derive(Debug, PartialEq)]
pub enum DecodeError {
    /// Too short, or without the magic bytes.
    NotPnd2,
    /// The version byte is not the one this library reads.
    UnsupportedVersion(u8),
    /// The compression tag stands for no compression known here.
    UnknownCompression(u8),
    /// The compressed data does not decompress; with the decompressor's words.
    Zstd(String),
    /// Fewer schema entries, stats or payloads are whole than the header announces.
    CutShort,
}

pub enum DecodeErrorView {
    NotPnd2,
    UnsupportedVersion(u8),
    UnknownCompression(u8),
    Zstd(Seq<char>),
    CutShort,
}

impl View for DecodeError {
    type V = DecodeErrorView;

    open spec fn view(&self) -> DecodeErrorView {
        match self {
            DecodeError::NotPnd2 => DecodeErrorView::NotPnd2,
            DecodeError::UnsupportedVersion(v) => DecodeErrorView::UnsupportedVersion(*v),
            DecodeError::UnknownCompression(t) => DecodeErrorView::UnknownCompression(*t),
            DecodeError::Zstd(s) => DecodeErrorView::Zstd(s@),
            DecodeError::CutShort => DecodeErrorView::CutShort,
        }
    }
}

/// The words of an error.
pub open spec fn error_text(e: DecodeErrorView) -> Seq<char> {
    match e {
        DecodeErrorView::NotPnd2 => "not a PND2 blob"@,
        DecodeErrorView::UnsupportedVersion(v) => "unsupported PND2 version: "@ + decimal(v as nat),
        DecodeErrorView::UnknownCompression(t) => "unknown compression tag: "@ + decimal(t as nat),
        DecodeErrorView::Zstd(s) => "zstd: failed to decompress: "@ + s,
        DecodeErrorView::CutShort => "PND2 blob is cut short"@,
    }
}

impl DecodeError {
    /// What to tell the user.
    pub fn message(&self) -> (r: String)
        ensures
            r@ == error_text(self@),
    {
        let mut out: Vec<char> = Vec::new();
        match self {
            DecodeError::NotPnd2 => {
                out = chars_of("not a PND2 blob");
            },
            DecodeError::UnsupportedVersion(v) => {
                out = chars_of("unsupported PND2 version: ");
                let d = write_decimal(*v as u64);
                push_chars(&mut out, &d);
            },
            DecodeError::UnknownCompression(t) => {
                out = chars_of("unknown compression tag: ");
                let d = write_decimal(*t as u64);
                push_chars(&mut out, &d);
            },
            DecodeError::Zstd(s) => {
                out = chars_of("zstd: failed to decompress: ");
                let d = chars_of(s);
                push_chars(&mut out, &d);
            },
            DecodeError::CutShort => {
                out = chars_of("PND2 blob is cut short");
            },
        }
        text_of(&out)
    }
}

/// A schema entry: a column's name, value type and encoding.
pub struct SchemaEntry {
    pub name: Vec<u8>,
    pub vtype: u8,
    pub enc: u8,
}

pub struct SchemaView {
    pub name: Seq<u8>,
    pub vtype: u8,
    pub enc: u8,
}

impl View for SchemaEntry {
    type V = SchemaView;

    open spec fn view(&self) -> SchemaView {
        SchemaView { name: self.name@, vtype: self.vtype, enc: self.enc }
    }
}

pub open spec fn entry_views(v: Seq<SchemaEntry>) -> Seq<SchemaView> {
    Seq::new(v.len(), |i: int| v[i]@)
}

pub open spec fn span_views(v: Seq<(usize, usize)>) -> Seq<(int, int)> {
    Seq::new(v.len(), |i: int| (v[i].0 as int, v[i].1 as int))
}

pub open spec fn column_views(v: Seq<PondColumn>) -> Seq<ColumnView> {
    Seq::new(v.len(), |i: int| v[i]@)
}

/// The `n` schema entries from `off` on, and where they end; nothing where they
/// are not all whole.
pub open spec fn schema_at(inner: Seq<u8>, off: int, n: nat) -> Option<(Seq<SchemaView>, int)>
    decreases n,
{
    if n == 0 {
        Some((Seq::empty(), off))
    } else if off >= inner.len() {
        None
    } else {
        let end = off + 1 + inner[off];
        if end + 2 > inner.len() {
            None
        } else {
            let entry = SchemaView {
                name: inner.subrange(off + 1, end),
                vtype: inner[end],
                enc: inner[end + 1],
            };
            match schema_at(inner, end + 2, (n - 1) as nat) {
                Some(rest) => Some((seq![entry] + rest.0, rest.1)),
                None => None,
            }
        }
    }
}

/// Where the stats of the given columns end; nothing where they are not all
/// whole. The stats of a column are a mark, two values where the mark is set, and
/// the number of nulls.
pub open spec fn stats_end(inner: Seq<u8>, off: int, schema: Seq<SchemaView>) -> Option<int>
    decreases schema.len(),
{
    if schema.len() == 0 {
        Some(off)
    } else if off >= inner.len() {
        None
    } else {
        let values = if inner[off] != 0 {
            off + 1 + 2 * stat_len(schema[0].vtype)
        } else {
            off + 1
        };
        if values + 4 > inner.len() {
            None
        } else {
            stats_end(inner, values + 4, schema.drop_first())
        }
    }
}

/// The `n` payloads from `off` on, each as its start and its end; nothing where
/// they are not all whole.
pub open spec fn payload_spans(inner: Seq<u8>, off: int, n: nat) -> Option<Seq<(int, int)>>
    decreases n,
{
    if n == 0 {
        Some(Seq::empty())
    } else if inner.len() - off < 4 {
        None
    } else {
        let start = off + 4;
        let end = start + le_at(inner, off, 4);
        if end > inner.len() {
            None
        } else {
            match payload_spans(inner, end, (n - 1) as nat) {
                Some(rest) => Some(seq![(start, end)] + rest),
                None => None,
            }
        }
    }
}

/// The schema of the inner data and the spans of its payloads; nothing where any
/// part that the header announces is not whole.
pub open spec fn inner_parts(inner: Seq<u8>, n_columns: nat, has_stats: bool) -> Option<
    (Seq<SchemaView>, Seq<(int, int)>),
> {
    match schema_at(inner, 0, n_columns) {
        None => None,
        Some((schema, after)) => {
            let off = if has_stats {
                stats_end(inner, after, schema)
            } else {
                Some(after)
            };
            match off {
                None => None,
                Some(off) => match payload_spans(inner, off, schema.len()) {
                    None => None,
                    Some(spans) => Some((schema, spans)),
                },
            }
        },
    }
}

/// The column that a schema entry and a payload stand for.
pub open spec fn named_column(entry: SchemaView, payload: Seq<u8>, n_rows: nat) -> ColumnView {
    ColumnView {
        name: entry.name,
        vtype: entry.vtype,
        ..column_view(payload, entry.vtype, entry.enc, n_rows)
    }
}

/// All columns of the inner data; nothing where it is cut short.
pub open spec fn inner_columns(inner: Seq<u8>, n_rows: nat, n_columns: nat, has_stats: bool) -> Option<
    Seq<ColumnView>,
> {
    match inner_parts(inner, n_columns, has_stats) {
        None => None,
        Some((schema, spans)) => Some(
            Seq::new(
                spans.len(),
                |i: int| named_column(schema[i], inner.subrange(spans[i].0, spans[i].1), n_rows),
            ),
        ),
    }
}

/// Whether a projection asks for a column: one that is left out asks for all.
pub open spec fn wanted(projection: Option<Seq<Seq<u8>>>, name: Seq<u8>) -> bool {
    match projection {
        None => true,
        Some(names) => names.contains(name),
    }
}

/// The columns that a projection asks for, in their order.
pub open spec fn projected(cols: Seq<ColumnView>, projection: Option<Seq<Seq<u8>>>) -> Seq<ColumnView> {
    cols.filter(|c: ColumnView| wanted(projection, c.name))
}

/// What the decompressor makes of a compressed run of bytes.
pub uninterp spec fn zstd_decoded(data: Seq<u8>) -> Result<Seq<u8>, Seq<char>>;

/// The header's fields: has_stats, n_rows, n_columns.
pub open spec fn header_stats(blob: Seq<u8>) -> bool {
    blob[5] % 2 == 1
}

/// What inner data decodes to.
pub open spec fn inner_decoded(
    inner: Seq<u8>,
    n_rows: nat,
    n_columns: nat,
    has_stats: bool,
    projection: Option<Seq<Seq<u8>>>,
) -> Result<Seq<ColumnView>, DecodeErrorView> {
    match inner_columns(inner, n_rows, n_columns, has_stats) {
        Some(cols) => Ok(projected(cols, projection)),
        None => Err(DecodeErrorView::CutShort),
    }
}

/// What a blob decodes to.
pub open spec fn decoded(blob: Seq<u8>, projection: Option<Seq<Seq<u8>>>) -> Result<
    Seq<ColumnView>,
    DecodeErrorView,
> {
    if blob.len() < HEADER_LEN || blob.take(4) != magic() {
        Err(DecodeErrorView::NotPnd2)
    } else if blob[4] != PND2_VERSION {
        Err(DecodeErrorView::UnsupportedVersion(blob[4]))
    } else {
        let n_rows = le_at(blob, 6, 4);
        let n_columns = le_at(blob, 10, 2);
        let body = blob.skip(HEADER_LEN as int);
        if blob[12] == COMPRESSION_ZSTD {
            match zstd_decoded(body) {
                Ok(inner) => inner_decoded(inner, n_rows, n_columns, header_stats(blob), projection),
                Err(words) => Err(DecodeErrorView::Zstd(words)),
            }
        } else if blob[12] != COMPRESSION_NONE {
            Err(DecodeErrorView::UnknownCompression(blob[12]))
        } else {
            inner_decoded(body, n_rows, n_columns, header_stats(blob), projection)
        }
    }
}

/// The outcome of a decode, as its parts' views.
pub open spec fn outcome(r: Result<Vec<PondColumn>, DecodeError>) -> Result<
    Seq<ColumnView>,
    DecodeErrorView,
> {
    match r {
        Ok(cols) => Ok(column_views(cols@)),
        Err(e) => Err(e@),
    }
}

/// The names in a projection, as byte strings.
pub open spec fn projection_view(projection: Option<&[&str]>) -> Option<Seq<Seq<u8>>> {
    match projection {
        None => None,
        Some(names) => Some(Seq::new(names@.len(), |i: int| names@[i].spec_bytes())),
    }
}

/// `zstd::decode_all` on a byte slice: the whole decompressed stream, or the
/// error's words. Its result is given a name; what it is on given bytes is not
/// stated here.
#[verifier::external_body]
fn zstd_decode_all(data: &[u8]) -> (r: Result<Vec<u8>, String>)
    ensures
        match r {
            Ok(v) => zstd_decoded(data@) == Ok::<Seq<u8>, Seq<char>>(v@),
            Err(e) => zstd_decoded(data@) == Err::<Seq<u8>, Seq<char>>(e@),
        },
{
    zstd::decode_all(data).map_err(|e| e.to_string())
}

/// Reads the schema section.
fn read_schema(parser: &mut PND2Parser, n_columns: usize) -> (r: Option<Vec<SchemaEntry>>)
    requires
        old(parser).wf(),
        old(parser).pos == 0,
    ensures
        final(parser).wf(),
        final(parser).data == old(parser).data,
        match r {
            Some(v) => schema_at(old(parser).data@, 0, n_columns as nat) == Some(
                (entry_views(v@), final(parser).pos as int),
            ),
            None => schema_at(old(parser).data@, 0, n_columns as nat) is None,
        },
{
    let ghost inner = parser.data@;
    let ghost all = schema_at(inner, 0, n_columns as nat);
    let mut out: Vec<SchemaEntry> = Vec::new();
    let mut left: usize = n_columns;
    proof {
        if let Some(a) = all {
            assert(entry_views(out@) + a.0 =~= a.0);
        }
    }
    while left > 0
        invariant
            parser.wf(),
            left <= n_columns,
            parser.data == old(parser).data,
            inner == parser.data@,
            all == schema_at(inner, 0, n_columns as nat),
            match schema_at(inner, parser.pos as int, left as nat) {
                Some(rest) => all == Some((entry_views(out@) + rest.0, rest.1)),
                None => all is None,
            },
        decreases left,
    {
        let ghost here = schema_at(inner, parser.pos as int, left as nat);
        let ghost before = entry_views(out@);
        let name_len: usize = match parser.read_u8() {
            Some(v) => v as usize,
            None => {
                return None;
            },
        };
        let name = match parser.read_bytes(name_len) {
            Some(v) => v,
            None => {
                return None;
            },
        };
        let vtype = match parser.read_u8() {
            Some(v) => v,
            None => {
                return None;
            },
        };
        let enc = match parser.read_u8() {
            Some(v) => v,
            None => {
                return None;
            },
        };
        let ghost rest = schema_at(inner, parser.pos as int, (left - 1) as nat);
        let entry = SchemaEntry { name: copy_bytes(name), vtype, enc };
        let ghost e = entry@;
        out.push(entry);
        left = left - 1;
        proof {
            assert(entry_views(out@) =~= before.push(e));
            if let Some(rest) = rest {
                assert(here == Some((seq![e] + rest.0, rest.1)));
                assert(before + (seq![e] + rest.0) =~= before.push(e) + rest.0);
            }
        }
    }
    proof {
        assert(entry_views(out@) + Seq::<SchemaView>::empty() =~= entry_views(out@));
    }
    Some(out)
}

/// Moves past the stats section. Tells whether it is whole.
fn skip_stats(parser: &mut PND2Parser, schema: &Vec<SchemaEntry>) -> (r: bool)
    requires
        old(parser).wf(),
    ensures
        final(parser).wf(),
        final(parser).data == old(parser).data,
        stats_end(old(parser).data@, old(parser).pos as int, entry_views(schema@)) == if r {
            Some(final(parser).pos as int)
        } else {
            None
        },
{
    let ghost inner = parser.data@;
    let ghost all = entry_views(schema@);
    let ghost end = stats_end(inner, parser.pos as int, all);
    let mut i: usize = 0;
    proof {
        assert(all.skip(0) =~= all);
    }
    while i < schema.len()
        invariant
            i <= schema@.len(),
            end == stats_end(old(parser).data@, old(parser).pos as int, entry_views(schema@)),
            end == stats_end(inner, parser.pos as int, all.skip(i as int)),
            parser.wf(),
            parser.data == old(parser).data,
            inner == parser.data@,
            all == entry_views(schema@),
        decreases schema@.len() - i,
    {
        proof {
            assert(all.skip(i as int).drop_first() =~= all.skip(i as int + 1));
            assert(all.skip(i as int)[0] == all[i as int]);
        }
        let has_min = match parser.read_u8() {
            Some(v) => v,
            None => {
                return false;
            },
        };
        if has_min != 0 {
            parser.skip_stat_value(schema[i].vtype);
            parser.skip_stat_value(schema[i].vtype);
        }
        if parser.read_u32().is_none() {
            return false;
        }
        i = i + 1;
    }
    proof {
        assert(all.skip(all.len() as int) =~= Seq::<SchemaView>::empty());
    }
    true
}

/// Finds the payloads.
fn find_payloads(parser: &mut PND2Parser, n: usize) -> (r: Option<Vec<(usize, usize)>>)
    requires
        old(parser).wf(),
    ensures
        match r {
            Some(v) => {
                &&& v@.len() == n
                &&& payload_spans(old(parser).data@, old(parser).pos as int, n as nat) == Some(span_views(v@))
                &&& forall|i: int|
                    0 <= i < v@.len() ==> (#[trigger] v@[i]).0 <= v@[i].1 <= old(parser).data@.len()
            },
            None => payload_spans(old(parser).data@, old(parser).pos as int, n as nat) is None,
        },
{
    let ghost inner = parser.data@;
    let ghost all = payload_spans(inner, parser.pos as int, n as nat);
    let mut out: Vec<(usize, usize)> = Vec::new();
    let mut left: usize = n;
    proof {
        if let Some(a) = all {
            assert(span_views(out@) + a =~= a);
        }
    }
    while left > 0
        invariant
            out@.len() + left == n,
            parser.wf(),
            parser.data == old(parser).data,
            inner == parser.data@,
            all == payload_spans(inner, old(parser).pos as int, n as nat),
            match payload_spans(inner, parser.pos as int, left as nat) {
                Some(rest) => all == Some(span_views(out@) + rest),
                None => all is None,
            },
            forall|i: int|
                0 <= i < out@.len() ==> (#[trigger] out@[i]).0 <= out@[i].1 <= inner.len(),
        decreases left,
    {
        let ghost here = payload_spans(inner, parser.pos as int, left as nat);
        let ghost before = span_views(out@);
        let len: usize = match parser.read_u32() {
            Some(v) => v as usize,
            None => {
                return None;
            },
        };
        let start: usize = parser.pos;
        if len > parser.data.len() - start {
            return None;
        }
        let end: usize = start + len;
        parser.pos = end;
        out.push((start, end));
        left = left - 1;
        proof {
            let e = (start as int, end as int);
            assert(span_views(out@) =~= before.push(e));
            if let Some(rest) = payload_spans(inner, end as int, left as nat) {
                assert(here == Some(seq![e] + rest));
                assert(before + (seq![e] + rest) =~= before.push(e) + rest);
            }
        }
    }
    proof {
        assert(span_views(out@) + Seq::<(int, int)>::empty() =~= span_views(out@));
    }
    Some(out)
}

/// Whether the projection asks for a name.
fn is_wanted(projection: Option<&[&str]>, name: &Vec<u8>) -> (r: bool)
    ensures
        r == wanted(projection_view(projection), name@),
{
    match projection {
        None => true,
        Some(names) => {
            let mut i: usize = 0;
            while i < names.len()
                invariant
                    i <= names@.len(),
                    projection == Some(names),
                    forall|k: int| 0 <= k < i ==> #[trigger] names@[k].spec_bytes() != name@,
                decreases names@.len() - i,
            {
                if same_bytes(names[i].as_bytes(), name) {
                    proof {
                        assert(projection_view(projection)->0[i as int] == name@);
                    }
                    return true;
                }
                i = i + 1;
            }
            false
        },
    }
}

/// Decodes inner data that is not compressed, or no longer.
pub fn decode_inner(
    inner: &[u8],
    n_rows: usize,
    n_columns: usize,
    has_stats: bool,
    projection: Option<&[&str]>,
) -> (r: Result<Vec<PondColumn>, DecodeError>)
    ensures
        outcome(r) == inner_decoded(
            inner@,
            n_rows as nat,
            n_columns as nat,
            has_stats,
            projection_view(projection),
        ),
{
    let mut parser = PND2Parser::new(inner);
    let schema = match read_schema(&mut parser, n_columns) {
        Some(v) => v,
        None => {
            return Err(DecodeError::CutShort);
        },
    };
    if has_stats && !skip_stats(&mut parser, &schema) {
        return Err(DecodeError::CutShort);
    }
    let spans = match find_payloads(&mut parser, schema.len()) {
        Some(v) => v,
        None => {
            return Err(DecodeError::CutShort);
        },
    };
    let ghost pv = projection_view(projection);
    let ghost all = inner_columns(inner@, n_rows as nat, n_columns as nat, has_stats)->0;
    let ghost keep = |c: ColumnView| wanted(pv, c.name);
    let ghost sv = entry_views(schema@);
    let mut out: Vec<PondColumn> = Vec::new();
    let mut i: usize = 0;
    proof {
        assert(all.take(0) =~= Seq::<ColumnView>::empty());
        reveal(Seq::filter);
        assert(column_views(out@) =~= all.take(0).filter(keep));
    }
    while i < spans.len()
        invariant
            i <= spans@.len() == all.len(),
            spans@.len() <= schema@.len(),
            sv == entry_views(schema@),
            pv == projection_view(projection),
            keep == (|c: ColumnView| wanted(pv, c.name)),
            forall|k: int|
                0 <= k < spans@.len() ==> spans@[k].0 <= spans@[k].1 <= inner@.len()
                    && #[trigger] all[k] == named_column(
                    sv[k],
                    inner@.subrange(spans@[k].0 as int, spans@[k].1 as int),
                    n_rows as nat,
                ),
            column_views(out@) == all.take(i as int).filter(keep),
        decreases spans@.len() - i,
    {
        let ghost before = column_views(out@);
        proof {
            assert(all[i as int].name == sv[i as int].name);
            assert(all.take(i as int + 1).drop_last() =~= all.take(i as int));
            assert(all.take(i as int + 1).last() == all[i as int]);
            reveal(Seq::filter);
        }
        if is_wanted(projection, &schema[i].name) {
            let payload = slice_subrange(inner, spans[i].0, spans[i].1);
            let col = decode_column(payload, schema[i].vtype, schema[i].enc, n_rows);
            let named = PondColumn {
                name: copy_bytes(&schema[i].name),
                vtype: schema[i].vtype,
                ..col
            };
            let ghost c = named@;
            out.push(named);
            proof {
                assert(c == all[i as int]);
                assert(column_views(out@) =~= before.push(c));
            }
        }
        i = i + 1;
    }
    proof {
        assert(all.take(all.len() as int) =~= all);
    }
    Ok(out)
}

/// Decodes a blob into all its columns.
pub fn pnd2_decode(blob: &[u8]) -> (r: Result<Vec<PondColumn>, DecodeError>)
    ensures
        outcome(r) == decoded(blob@, None),
{
    pnd2_decode_projected(blob, None)
}

/// Decodes the columns of a blob that a projection asks for.
pub fn pnd2_decode_projected(blob: &[u8], projection: Option<&[&str]>) -> (r: Result<
    Vec<PondColumn>,
    DecodeError,
>)
    ensures
        outcome(r) == decoded(blob@, projection_view(projection)),
{
    if blob.len() < HEADER_LEN {
        return Err(DecodeError::NotPnd2);
    }
    let head = slice_subrange(blob, 0, 4);
    let magic_bytes = pnd2_magic();
    proof {
        assert(head@ =~= blob@.take(4));
    }
    if !same_bytes(head, &magic_bytes) {
        return Err(DecodeError::NotPnd2);
    }
    if blob[4] != PND2_VERSION {
        return Err(DecodeError::UnsupportedVersion(blob[4]));
    }
    let flags = blob[5];
    let has_stats: bool = (flags & FLAG_HAS_STATS) != 0;
    proof {
        assert((flags & 1u8 != 0) == (flags % 2 == 1)) by (bit_vector);
        lemma_pow2_8();
    }
    let n_rows: usize = read_u32(blob, 6) as usize;
    let n_columns: usize = read_le(blob, 10, 2) as usize;
    let body = slice_subrange(blob, HEADER_LEN, blob.len());
    proof {
        assert(body@ =~= blob@.skip(HEADER_LEN as int));
    }
    if blob[12] == COMPRESSION_ZSTD {
        match zstd_decode_all(body) {
            Ok(inner) => decode_inner(&inner, n_rows, n_columns, has_stats, projection),
            Err(words) => Err(DecodeError::Zstd(words)),
        }
    } else if blob[12] != COMPRESSION_NONE {
        Err(DecodeError::UnknownCompression(blob[12]))
    } else {
        decode_inner(body, n_rows, n_columns, has_stats, projection)
    }
}

/// Decoding under a projection gives the columns of a full decode whose names
/// the projection holds, in the same order.
pub proof fn projection_filters_full_decode(blob: Seq<u8>, names: Seq<Seq<u8>>)
    ensures
        match decoded(blob, None) {
            Ok(cols) => decoded(blob, Some(names)) == Ok::<Seq<ColumnView>, DecodeErrorView>(
                cols.filter(|c: ColumnView| names.contains(c.name)),
            ),
            Err(e) => decoded(blob, Some(names)) == Err::<Seq<ColumnView>, DecodeErrorView>(e),
        },
{
    let all_of = |c: ColumnView| wanted(None, c.name);
    let some_of = |c: ColumnView| wanted(Some(names), c.name);
    let in_names = |c: ColumnView| names.contains(c.name);
    assert(some_of =~= in_names);
    assert forall|cols: Seq<ColumnView>| #[trigger] projected(cols, None) == cols by {
        lemma_filter_all(cols, all_of);
    }
}

/// A filter that keeps everything changes nothing.
pub proof fn lemma_filter_all<A>(s: Seq<A>, keep: spec_fn(A) -> bool)
    requires
        forall|i: int| 0 <= i < s.len() ==> keep(#[trigger] s[i]),
    ensures
        s.filter(keep) == s,
    decreases s.len(),
{
    reveal(Seq::filter);
    if s.len() > 0 {
        lemma_filter_all(s.drop_last(), keep);
        assert(s.drop_last().push(s.last()) =~= s);
    }
}

} // verus!
