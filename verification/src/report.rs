//! What is shown to the user: tables of rows, lists of branches, commits and
//! commands, schemas.

use vstd::prelude::*;
use vstd::string::*;
use vstd::utf8::encode_utf8;
use crate::constants::{VT_BOOLEAN, VT_FLOAT64, VT_INT64, VT_STRING};
use crate::index::{join_texts, joined_by};
use crate::json::{json_shown, json_text, json_views, lemma_object_view, member, Json, JsonValue};
use crate::merge::fields_of;
use crate::text::{ascii_lowered, chars_of, copy_chars, copy_text, decimal, is_text, lower_chars, push_chars, same_text,
    text_of, text_views, write_decimal};

verus! {

/// How many characters of a hash are shown.
pub const SHORT_HASH: usize = 12;

/// The start of a hash.
pub open spec fn short(hash: Seq<char>) -> Seq<char> {
    if hash.len() >= SHORT_HASH {
        hash.take(SHORT_HASH as int)
    } else {
        hash
    }
}

/// Shortens a hash.
pub fn short_hash(hash: &str) -> (r: String)
    ensures
        r@ == short(hash@),
{
    let chars = chars_of(hash);
    if chars.len() >= SHORT_HASH {
        let head = copy_chars(&chars, 0, SHORT_HASH);
        proof {
            assert(head@ =~= hash@.take(SHORT_HASH as int));
        }
        text_of(&head)
    } else {
        text_of(&chars)
    }
}

fn append(out: &mut Vec<char>, s: &str)
    ensures
        final(out)@ == old(out)@ + s@,
{
    let c = chars_of(s);
    push_chars(out, &c);
}

/// A line of `branches`: a mark for the active one, the name, the head.
pub fn branch_line(name: &str, active: &str, hash: &str) -> (r: String)
    ensures
        r@ == (if name@ == active@ {
            "*"@
        } else {
            " "@
        }) + " "@ + name@ + "\t"@ + short(hash@),
{
    let mut out: Vec<char> = if same_text(name, active) {
        chars_of("*")
    } else {
        chars_of(" ")
    };
    append(&mut out, " ");
    append(&mut out, name);
    append(&mut out, "\t");
    append(&mut out, &short_hash(hash));
    text_of(&out)
}

/// A line of `history`: the commit, its message, a mark for a merge.
pub fn commit_line(hash: &str, message: &str, is_merge: bool) -> (r: String)
    ensures
        r@ == short(hash@) + "\t"@ + message@ + (if is_merge {
            " (merge)"@
        } else {
            ""@
        }),
{
    let mut out: Vec<char> = chars_of(&short_hash(hash));
    append(&mut out, "\t");
    append(&mut out, message);
    append(
        &mut out,
        if is_merge {
            " (merge)"
        } else {
            ""
        },
    );
    text_of(&out)
}

/// A line of `ls`: the head and the name of a collection.
pub fn collection_line(hash: &str, name: &str) -> (r: String)
    ensures
        r@ == short(hash@) + "\t"@ + name@,
{
    let mut out: Vec<char> = chars_of(&short_hash(hash));
    append(&mut out, "\t");
    append(&mut out, name);
    text_of(&out)
}

/// So many copies of a character.
pub open spec fn run(c: char, n: nat) -> Seq<char> {
    Seq::new(n, |i: int| c)
}

/// A text with spaces after it, up to a width in characters.
pub open spec fn padded(s: Seq<char>, width: nat) -> Seq<char> {
    if s.len() < width {
        s + run(' ', (width - s.len()) as nat)
    } else {
        s
    }
}

/// A text with spaces before it, up to a width in characters.
pub open spec fn padded_left(s: Seq<char>, width: nat) -> Seq<char> {
    if s.len() < width {
        run(' ', (width - s.len()) as nat) + s
    } else {
        s
    }
}

fn push_run(out: &mut Vec<char>, c: char, n: usize)
    ensures
        final(out)@ == old(out)@ + run(c, n as nat),
{
    let ghost start = out@;
    let mut i: usize = 0;
    proof {
        assert(start + run(c, 0) =~= start);
    }
    while i < n
        invariant
            i <= n,
            out@ == start + run(c, i as nat),
        decreases n - i,
    {
        out.push(c);
        proof {
            assert(start + run(c, (i + 1) as nat) =~= (start + run(c, i as nat)).push(c));
        }
        i = i + 1;
    }
}

/// Pads a text on its right.
pub fn pad(s: &str, width: usize) -> (r: String)
    ensures
        r@ == padded(s@, width as nat),
{
    let mut out = chars_of(s);
    let n: usize = out.len();
    if n < width {
        push_run(&mut out, ' ', width - n);
    }
    text_of(&out)
}

/// A line of the command history: its number, to the right in four places, and
/// the command.
pub fn history_line(number: usize, command: &str) -> (r: String)
    ensures
        r@ == padded_left(decimal(number as nat), 4) + "  "@ + command@,
{
    let d = write_decimal(number as u64);
    let mut out: Vec<char> = Vec::new();
    if d.len() < 4 {
        push_run(&mut out, ' ', 4 - d.len());
    }
    push_chars(&mut out, &d);
    proof {
        assert(out@ =~= padded_left(decimal(number as nat), 4));
    }
    append(&mut out, "  ");
    append(&mut out, command);
    text_of(&out)
}

/// The name of a value type.
pub open spec fn type_word(vtype: u8) -> Seq<char> {
    if vtype == VT_INT64 {
        "INT64"@
    } else if vtype == VT_FLOAT64 {
        "FLOAT64"@
    } else if vtype == VT_STRING {
        "STRING"@
    } else if vtype == VT_BOOLEAN {
        "BOOLEAN"@
    } else {
        "OTHER"@
    }
}

/// A line of a schema: a column's name and its type.
pub fn schema_line(name: &str, vtype: u8) -> (r: String)
    ensures
        r@ == "  "@ + padded(name@, 24) + " "@ + padded(type_word(vtype), 10),
{
    let shown: &str = if vtype == VT_INT64 {
        "INT64"
    } else if vtype == VT_FLOAT64 {
        "FLOAT64"
    } else if vtype == VT_STRING {
        "STRING"
    } else if vtype == VT_BOOLEAN {
        "BOOLEAN"
    } else {
        "OTHER"
    };
    let mut out = chars_of("  ");
    append(&mut out, &pad(name, 24));
    append(&mut out, " ");
    append(&mut out, &pad(shown, 10));
    text_of(&out)
}

/// The sum of row counts.
pub open spec fn sum_of(counts: Seq<u32>) -> nat
    decreases counts.len(),
{
    if counts.len() == 0 {
        0
    } else {
        sum_of(counts.drop_last()) + counts.last() as nat
    }
}

proof fn lemma_sum_grows(counts: Seq<u32>, n: int)
    requires
        0 <= n <= counts.len(),
    ensures
        sum_of(counts.take(n)) <= sum_of(counts),
    decreases counts.len() - n,
{
    if n == counts.len() {
        assert(counts.take(n) =~= counts);
    } else {
        assert(counts.take(n + 1).drop_last() =~= counts.take(n));
        lemma_sum_grows(counts, n + 1);
    }
}

/// Adds up the rows of the row groups.
pub fn total_rows(counts: &[u32]) -> (r: u32)
    requires
        sum_of(counts@) <= u32::MAX,
    ensures
        r == sum_of(counts@),
{
    let mut total: u32 = 0;
    let mut i: usize = 0;
    proof {
        assert(counts@.take(0) =~= Seq::<u32>::empty());
    }
    while i < counts.len()
        invariant
            i <= counts@.len(),
            sum_of(counts@) <= u32::MAX,
            total == sum_of(counts@.take(i as int)),
        decreases counts@.len() - i,
    {
        proof {
            assert(counts@.take(i as int + 1).drop_last() =~= counts@.take(i as int));
            assert(counts@.take(i as int + 1).last() == counts@[i as int]);
            lemma_sum_grows(counts@, i as int + 1);
        }
        total = total + counts[i];
        i = i + 1;
    }
    proof {
        assert(counts@.take(i as int) =~= counts@);
    }
    total
}

/// How rows are shown.
#[derive(Debug, PartialEq)]
pub enum OutputFormat {
    Json,
    Table,
    /// A format that is not known, with the message.
    Unknown(String),
}

pub open spec fn is_format(f: OutputFormat, s: Seq<char>) -> bool {
    let low = ascii_lowered(s);
    match f {
        OutputFormat::Json => low == "json"@ || low == ""@,
        OutputFormat::Table => low == "table"@,
        OutputFormat::Unknown(m) => {
            &&& low != "json"@ && low != ""@ && low != "table"@
            &&& m@ == "Error: unknown format '"@ + low + "' (use 'json' or 'table')"@
        },
    }
}

/// Reads the name of an output format, in capitals or not.
pub fn output_format(format: &str) -> (r: OutputFormat)
    ensures
        is_format(r, format@),
{
    let chars = chars_of(format);
    let low = lower_chars(&chars);
    proof {
        reveal_strlit("json");
        reveal_strlit("table");
        reveal_strlit("");
    }
    if is_text(&low, "json") || is_text(&low, "") {
        OutputFormat::Json
    } else if is_text(&low, "table") {
        OutputFormat::Table
    } else {
        OutputFormat::Unknown(
            crate::where_clause::message("Error: unknown format '", &low, "' (use 'json' or 'table')"),
        )
    }
}

/// The length of a text in bytes.
pub open spec fn byte_len(s: Seq<char>) -> nat {
    encode_utf8(s).len()
}

/// The columns of a table: those of the first row, in its order.
pub open spec fn headers_of(rows: Seq<Json>) -> Seq<Seq<char>> {
    let fields = fields_of(rows[0]);
    Seq::new(fields.len(), |i: int| fields[i].0)
}

/// A cell of a table: a text as it is, else the JSON text. What is missing is
/// null.
pub open spec fn table_cell(row: Json, header: Seq<char>) -> Seq<char> {
    match member(row, header) {
        Some(Json::String(s)) => s,
        Some(v) => json_shown(v),
        None => json_shown(Json::Null),
    }
}

pub open spec fn at_least(a: nat, b: nat) -> nat {
    if b > a {
        b
    } else {
        a
    }
}

/// The width of a column: that of the longest of its header and its cells in
/// the first `n` rows.
pub open spec fn column_width(rows: Seq<Json>, header: Seq<char>, n: nat) -> nat
    decreases n,
{
    if n == 0 {
        byte_len(header)
    } else {
        at_least(
            column_width(rows, header, (n - 1) as nat),
            byte_len(table_cell(rows[n - 1], header)),
        )
    }
}

/// Texts, each padded to the width of its column, with bars between them.
pub open spec fn table_line(texts: Seq<Seq<char>>, widths: Seq<nat>) -> Seq<char> {
    joined_by(Seq::new(texts.len(), |i: int| padded(texts[i], widths[i])), " | "@)
}

pub open spec fn widths_of(rows: Seq<Json>) -> Seq<nat> {
    let headers = headers_of(rows);
    Seq::new(headers.len(), |i: int| column_width(rows, headers[i], rows.len()))
}

pub open spec fn cells_of_row(row: Json, headers: Seq<Seq<char>>) -> Seq<Seq<char>> {
    Seq::new(headers.len(), |i: int| table_cell(row, headers[i]))
}

/// A table: the headers, a rule as long as they are, a line for each row.
pub open spec fn table_text(rows: Seq<Json>) -> Seq<Seq<char>> {
    if rows.len() == 0 {
        seq!["(no rows)"@]
    } else {
        let headers = headers_of(rows);
        let widths = widths_of(rows);
        let head = table_line(headers, widths);
        seq![head, run('-', byte_len(head))] + Seq::new(
            rows.len(),
            |i: int| table_line(cells_of_row(rows[i], headers), widths),
        )
    }
}

fn show_cell(row: &JsonValue, header: &str) -> (r: String)
    ensures
        r@ == table_cell(row@, header@),
{
    match row.get(header) {
        Some(v) => match v {
            JsonValue::String(s) => copy_text(s),
            _ => json_text(v),
        },
        None => {
            let null = JsonValue::Null;
            proof {
                assert(null@ == Json::Null);
            }
            json_text(&null)
        },
    }
}

pub open spec fn width_views(w: Seq<usize>) -> Seq<nat> {
    Seq::new(w.len(), |i: int| w[i] as nat)
}

fn make_line(texts: &Vec<String>, widths: &Vec<usize>) -> (r: String)
    requires
        texts@.len() == widths@.len(),
    ensures
        r@ == table_line(text_views(texts@), width_views(widths@)),
{
    let ghost tv = text_views(texts@);
    let ghost wv = width_views(widths@);
    let ghost want = Seq::new(tv.len(), |i: int| padded(tv[i], wv[i]));
    let mut parts: Vec<String> = Vec::new();
    let mut i: usize = 0;
    while i < texts.len()
        invariant
            i <= texts@.len(),
            texts@.len() == widths@.len(),
            tv == text_views(texts@),
            wv == width_views(widths@),
            want == Seq::new(tv.len(), |i: int| padded(tv[i], wv[i])),
            parts@.len() == i,
            forall|k: int| 0 <= k < i ==> (#[trigger] parts@[k])@ == want[k],
        decreases texts@.len() - i,
    {
        parts.push(pad(&texts[i], widths[i]));
        i = i + 1;
    }
    proof {
        assert(text_views(parts@) =~= want);
    }
    let bar = chars_of(" | ");
    join_texts(&parts, &bar)
}

fn read_headers(row: &JsonValue) -> (r: Vec<String>)
    ensures
        text_views(r@) =~= Seq::new(fields_of(row@).len(), |i: int| fields_of(row@)[i].0),
{
    let mut out: Vec<String> = Vec::new();
    if let JsonValue::Object(fields) = row {
        proof {
            lemma_object_view(*fields);
        }
        let mut i: usize = 0;
        while i < fields.len()
            invariant
                i <= fields@.len(),
                out@.len() == i,
                forall|k: int| 0 <= k < i ==> (#[trigger] out@[k])@ == fields@[k].0@,
            decreases fields@.len() - i,
        {
            out.push(copy_text(&fields[i].0));
            i = i + 1;
        }
    }
    out
}

fn row_cells(row: &JsonValue, headers: &Vec<String>) -> (r: Vec<String>)
    ensures
        text_views(r@) == cells_of_row(row@, text_views(headers@)),
{
    let ghost want = cells_of_row(row@, text_views(headers@));
    let mut out: Vec<String> = Vec::new();
    let mut i: usize = 0;
    while i < headers.len()
        invariant
            i <= headers@.len(),
            want == cells_of_row(row@, text_views(headers@)),
            out@.len() == i,
            forall|k: int| 0 <= k < i ==> (#[trigger] out@[k])@ == want[k],
        decreases headers@.len() - i,
    {
        out.push(show_cell(row, &headers[i]));
        i = i + 1;
    }
    proof {
        assert(text_views(out@) =~= want);
    }
    out
}

fn measure(rows: &[JsonValue], header: &str) -> (r: usize)
    ensures
        r == column_width(json_views(rows@), header@, rows@.len()),
{
    let ghost all = json_views(rows@);
    let mut width: usize = header.as_bytes().len();
    let mut i: usize = 0;
    while i < rows.len()
        invariant
            i <= rows@.len(),
            all == json_views(rows@),
            width == column_width(all, header@, i as nat),
        decreases rows@.len() - i,
    {
        let cell = show_cell(&rows[i], header);
        let n: usize = cell.as_str().as_bytes().len();
        if n > width {
            width = n;
        }
        i = i + 1;
    }
    width
}

/// Lays rows out as a table, line by line.
pub fn table_lines(rows: &[JsonValue]) -> (r: Vec<String>)
    ensures
        text_views(r@) == table_text(json_views(rows@)),
{
    let ghost all = json_views(rows@);
    let ghost want = table_text(all);
    let mut out: Vec<String> = Vec::new();
    if rows.len() == 0 {
        out.push(copy_text("(no rows)"));
        proof {
            assert(text_views(out@) =~= want);
        }
        return out;
    }
    let headers = read_headers(&rows[0]);
    let ghost hv = text_views(headers@);
    proof {
        assert(all[0] == rows@[0]@);
        assert(hv =~= headers_of(all));
    }
    let mut widths: Vec<usize> = Vec::new();
    let mut c: usize = 0;
    while c < headers.len()
        invariant
            c <= headers@.len(),
            all == json_views(rows@),
            hv == text_views(headers@),
            widths@.len() == c,
            forall|k: int|
                0 <= k < c ==> (#[trigger] widths@[k]) == column_width(all, hv[k], rows@.len()),
        decreases headers@.len() - c,
    {
        widths.push(measure(rows, &headers[c]));
        c = c + 1;
    }
    let ghost wv = widths_of(all);
    proof {
        assert(width_views(widths@) =~= wv);
    }
    let head = make_line(&headers, &widths);
    let mut rule: Vec<char> = Vec::new();
    push_run(&mut rule, '-', head.as_str().as_bytes().len());
    let rule_text = text_of(&rule);
    let ghost head_view = head@;
    proof {
        assert(rule_text@ =~= run('-', byte_len(head_view)));
    }
    out.push(head);
    out.push(rule_text);
    let mut i: usize = 0;
    proof {
        assert(text_views(out@) =~= want.take(2));
    }
    while i < rows.len()
        invariant
            i <= rows@.len(),
            rows@.len() > 0,
            all == json_views(rows@),
            want == table_text(all),
            hv == text_views(headers@),
            hv == headers_of(all),
            wv == widths_of(all),
            wv == width_views(widths@),
            widths@.len() == headers@.len(),
            text_views(out@) == want.take(2 + i),
        decreases rows@.len() - i,
    {
        let ghost before = text_views(out@);
        let cells = row_cells(&rows[i], &headers);
        proof {
            assert(text_views(cells@).len() == hv.len());
        }
        let line = make_line(&cells, &widths);
        let ghost lv = line@;
        out.push(line);
        proof {
            assert(text_views(out@) =~= before.push(lv));
            assert(want[2 + i] == lv);
            assert(want.take(2 + i + 1) =~= want.take(2 + i).push(lv));
        }
        i = i + 1;
    }
    proof {
        assert(want.take(2 + i) =~= want);
    }
    out
}

/// What to do once unreachable blobs are counted.
#[derive(Debug, Clone, Copy, PartialEq, Eq, Structural)]
pub enum GcStep {
    /// Tell what would be deleted.
    DryRun,
    Vacuum,
    Nothing,
}

/// What garbage collection does: nothing without dead blobs; else a dry run only
/// tells.
pub open spec fn gc_does(dead: nat, dry_run: bool) -> GcStep {
    if dead == 0 {
        GcStep::Nothing
    } else if dry_run {
        GcStep::DryRun
    } else {
        GcStep::Vacuum
    }
}

/// What a vacuum does: a dry run always tells.
pub open spec fn vacuum_does(dead: nat, dry_run: bool) -> GcStep {
    if dry_run {
        GcStep::DryRun
    } else if dead > 0 {
        GcStep::Vacuum
    } else {
        GcStep::Nothing
    }
}

/// Garbage collection: nothing to do without dead blobs; else a dry run only
/// tells.
pub fn gc_step(dead: usize, dry_run: bool) -> (r: GcStep)
    ensures
        r == (if dead == 0 {
            GcStep::Nothing
        } else if dry_run {
            GcStep::DryRun
        } else {
            GcStep::Vacuum
        }),
        r == gc_does(dead as nat, dry_run),
{
    if dead == 0 {
        GcStep::Nothing
    } else if dry_run {
        GcStep::DryRun
    } else {
        GcStep::Vacuum
    }
}

/// Vacuum: a dry run always tells.
pub fn vacuum_step(dead: usize, dry_run: bool) -> (r: GcStep)
    ensures
        r == (if dry_run {
            GcStep::DryRun
        } else if dead > 0 {
            GcStep::Vacuum
        } else {
            GcStep::Nothing
        }),
        r == vacuum_does(dead as nat, dry_run),
{
    if dry_run {
        GcStep::DryRun
    } else if dead > 0 {
        GcStep::Vacuum
    } else {
        GcStep::Nothing
    }
}

/// What clearing the shards of a collection came to.
#[derive(Debug, Clone, Copy, PartialEq, Eq, Structural)]
pub enum Compaction {
    /// There were no shards to clear.
    NoShards,
    /// So many shards were cleared.
    Cleared(usize),
    Failed,
}

/// What an optimization did.
#[derive(Debug, Clone, Copy, PartialEq, Eq, Structural)]
pub struct OptimizeReport {
    pub collections_optimized: usize,
    pub shards_compacted: usize,
}

/// How many collections were optimized: all whose shards did not fail to clear.
pub open spec fn optimized_count(outcomes: Seq<Compaction>) -> nat
    decreases outcomes.len(),
{
    if outcomes.len() == 0 {
        0
    } else {
        optimized_count(outcomes.drop_last()) + if outcomes.last() is Failed {
            0nat
        } else {
            1nat
        }
    }
}

/// How many shards were cleared in all.
pub open spec fn cleared_count(outcomes: Seq<Compaction>) -> nat
    decreases outcomes.len(),
{
    if outcomes.len() == 0 {
        0
    } else {
        cleared_count(outcomes.drop_last()) + match outcomes.last() {
            Compaction::Cleared(n) => n as nat,
            _ => 0nat,
        }
    }
}

proof fn lemma_counts_grow(outcomes: Seq<Compaction>, n: int)
    requires
        0 <= n <= outcomes.len(),
    ensures
        cleared_count(outcomes.take(n)) <= cleared_count(outcomes),
        optimized_count(outcomes.take(n)) <= n,
    decreases outcomes.len() - n,
{
    if n == outcomes.len() {
        assert(outcomes.take(n) =~= outcomes);
        lemma_optimized_bound(outcomes);
    } else {
        assert(outcomes.take(n + 1).drop_last() =~= outcomes.take(n));
        lemma_counts_grow(outcomes, n + 1);
        lemma_optimized_bound(outcomes.take(n));
    }
}

proof fn lemma_optimized_bound(outcomes: Seq<Compaction>)
    ensures
        optimized_count(outcomes) <= outcomes.len(),
    decreases outcomes.len(),
{
    if outcomes.len() > 0 {
        lemma_optimized_bound(outcomes.drop_last());
    }
}

/// Sums up an optimization. A collection that failed is passed over.
pub fn optimize(outcomes: &[Compaction]) -> (r: OptimizeReport)
    requires
        cleared_count(outcomes@) <= usize::MAX,
    ensures
        r.collections_optimized == optimized_count(outcomes@),
        r.shards_compacted == cleared_count(outcomes@),
{
    let mut done: usize = 0;
    let mut shards: usize = 0;
    let mut i: usize = 0;
    proof {
        assert(outcomes@.take(0) =~= Seq::<Compaction>::empty());
    }
    while i < outcomes.len()
        invariant
            i <= outcomes@.len(),
            cleared_count(outcomes@) <= usize::MAX,
            done == optimized_count(outcomes@.take(i as int)),
            shards == cleared_count(outcomes@.take(i as int)),
        decreases outcomes@.len() - i,
    {
        proof {
            assert(outcomes@.take(i as int + 1).drop_last() =~= outcomes@.take(i as int));
            assert(outcomes@.take(i as int + 1).last() == outcomes@[i as int]);
            lemma_counts_grow(outcomes@, i as int + 1);
        }
        match outcomes[i] {
            Compaction::Failed => {},
            Compaction::NoShards => {
                done = done + 1;
            },
            Compaction::Cleared(n) => {
                shards = shards + n;
                done = done + 1;
            },
        }
        i = i + 1;
    }
    proof {
        assert(outcomes@.take(i as int) =~= outcomes@);
    }
    OptimizeReport { collections_optimized: done, shards_compacted: shards }
}

} // verus!
