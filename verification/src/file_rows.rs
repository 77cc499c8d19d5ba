//! Rows of files: JSON, a JSON value per line, and tables with separators.

use vstd::prelude::*;
use vstd::string::*;
use vstd::utf8::encode_utf8;
use crate::json::{field_views, json_parsed, json_views, lemma_array_view, lemma_object_view, parse_json, put, put_field,
    Json, JsonNumber, JsonValue, Number};
use crate::text::{
    ascii_lowered, char_views, chars_of, copy_chars, ends_with, has_suffix, int_value, is_text,
    lower_chars, parse_int, split, split_chars, text_of, text_views, trim_chars,
    trimmed,
};
use crate::where_clause::{message, tell_alike, FloatReading, FloatTable, ReadingView};

verus! {

/// A line without the carriage return before its end.
pub open spec fn without_return(s: Seq<char>) -> Seq<char> {
    if s.len() > 0 && s.last() == '\r' {
        s.drop_last()
    } else {
        s
    }
}

/// The lines of a text. What follows the last line feed is a line where it is
/// not empty.
pub open spec fn lines_of(s: Seq<char>) -> Seq<Seq<char>> {
    let parts = split(s, '\n');
    let n = (parts.len() - 1) as nat;
    let ended = Seq::new(n, |i: int| without_return(parts[i]));
    if parts[n as int].len() == 0 {
        ended
    } else {
        ended.push(parts[n as int])
    }
}

/// The text without quotes at its start.
pub open spec fn unquoted_start(s: Seq<char>) -> Seq<char>
    decreases s.len(),
{
    if s.len() > 0 && s[0] == '"' {
        unquoted_start(s.drop_first())
    } else {
        s
    }
}

/// The text without quotes at its end.
pub open spec fn unquoted_end(s: Seq<char>) -> Seq<char>
    decreases s.len(),
{
    if s.len() > 0 && s.last() == '"' {
        unquoted_end(s.drop_last())
    } else {
        s
    }
}

/// A cell without white space and quotes round it.
pub open spec fn bare_cell(s: Seq<char>) -> Seq<char> {
    unquoted_end(unquoted_start(trimmed(s)))
}

/// What a cell holds: a whole number, a float, a boolean, nothing, a text.
pub open spec fn cell_value(s: Seq<char>, reading: ReadingView) -> Json {
    if int_value(s) is Some {
        Json::Number(Number::Int(int_value(s)->0))
    } else {
        match reading {
            ReadingView::Json(bits, text) => Json::Number(Number::Float(bits, text)),
            ReadingView::NoJson => Json::String(s),
            ReadingView::NotFloat => if ascii_lowered(s) == "true"@ {
                Json::Bool(true)
            } else if ascii_lowered(s) == "false"@ {
                Json::Bool(false)
            } else if s.len() == 0 {
                Json::Null
            } else {
                Json::String(s)
            },
        }
    }
}

/// The cells of a line.
pub open spec fn line_cells(line: Seq<char>, delimiter: char) -> Seq<Seq<char>> {
    let parts = split(line, delimiter);
    Seq::new(parts.len(), |i: int| bare_cell(parts[i]))
}

/// The fields that the first `n` headers give to a row. A cell that is missing
/// is empty.
pub open spec fn row_fields(
    headers: Seq<Seq<char>>,
    cells: Seq<Seq<char>>,
    floats: FloatTable,
    n: nat,
) -> Seq<(Seq<char>, Json)>
    decreases n,
{
    if n == 0 {
        Seq::empty()
    } else {
        let cell = if n <= cells.len() {
            cells[n - 1]
        } else {
            Seq::empty()
        };
        put(
            row_fields(headers, cells, floats, (n - 1) as nat),
            headers[n - 1],
            cell_value(cell, floats.reading(cell)),
        )
    }
}

/// The rows that lines give; blank lines give none.
pub open spec fn table_rows(
    headers: Seq<Seq<char>>,
    lines: Seq<Seq<char>>,
    delimiter: char,
    floats: FloatTable,
) -> Seq<Json>
    decreases lines.len(),
{
    if lines.len() == 0 {
        Seq::empty()
    } else {
        let prev = table_rows(headers, lines.drop_last(), delimiter, floats);
        if trimmed(lines.last()).len() == 0 {
            prev
        } else {
            prev.push(
                Json::Object(
                    row_fields(headers, line_cells(lines.last(), delimiter), floats, headers.len()),
                ),
            )
        }
    }
}

/// The rows of a table whose first line names the columns.
pub open spec fn separated_rows(content: Seq<char>, delimiter: char, floats: FloatTable) -> Result<
    Seq<Json>,
    Seq<char>,
> {
    let lines = lines_of(content);
    if lines.len() == 0 {
        Err("CSV file is empty"@)
    } else {
        Ok(table_rows(line_cells(lines[0], delimiter), lines.drop_first(), delimiter, floats))
    }
}

/// The rows of a text with a JSON value per line, up to the first line that is
/// none.
pub open spec fn line_rows(lines: Seq<Seq<char>>) -> Result<Seq<Json>, Seq<char>>
    decreases lines.len(),
{
    if lines.len() == 0 {
        Ok(Seq::empty())
    } else {
        match line_rows(lines.drop_last()) {
            Err(e) => Err(e),
            Ok(rows) => if trimmed(lines.last()).len() == 0 {
                Ok(rows)
            } else {
                match json_parsed(encode_utf8(lines.last())) {
                    Ok(v) => Ok(rows.push(v)),
                    Err(e) => Err("Failed to parse NDJSON line: "@ + e),
                }
            },
        }
    }
}

/// The rows of a JSON value: those of a list, or the one object.
pub open spec fn value_rows(v: Json) -> Result<Seq<Json>, Seq<char>> {
    match v {
        Json::Array(items) => Ok(items),
        Json::Object(_) => Ok(seq![v]),
        _ => Err("JSON file must contain an array or object"@),
    }
}

/// The rows of a file, by the ending of its name.
pub open spec fn file_rows(path: Seq<char>, content: Seq<char>, floats: FloatTable) -> Result<
    Seq<Json>,
    Seq<char>,
> {
    if ends_with(path, ".ndjson"@) {
        line_rows(lines_of(content))
    } else if ends_with(path, ".json"@) {
        match json_parsed(encode_utf8(content)) {
            Ok(v) => value_rows(v),
            Err(e) => Err("Failed to parse JSON: "@ + e),
        }
    } else if ends_with(path, ".tsv"@) {
        separated_rows(content, '\t', floats)
    } else if ends_with(path, ".csv"@) {
        separated_rows(content, ',', floats)
    } else if ends_with(path, ".parquet"@) {
        Err("Parquet file reading not yet supported. Use CSV or JSON."@)
    } else {
        Err("Unsupported file format: '"@ + path + "'"@)
    }
}

pub open spec fn rows_outcome(r: Result<Vec<JsonValue>, String>) -> Result<Seq<Json>, Seq<char>> {
    match r {
        Ok(rows) => Ok(json_views(rows@)),
        Err(e) => Err(e@),
    }
}

/// Cuts a text into its lines.
pub fn split_lines(content: &str) -> (r: Vec<Vec<char>>)
    ensures
        char_views(r@) == lines_of(content@),
{
    let chars = chars_of(content);
    let parts = split_chars(&chars, '\n');
    let ghost pv = char_views(parts@);
    let ghost want = lines_of(content@);
    let last: usize = parts.len() - 1;
    let mut out: Vec<Vec<char>> = Vec::new();
    let mut i: usize = 0;
    proof {
        assert(pv.len() == parts@.len());
    }
    while i < last
        invariant
            i <= last,
            last == parts@.len() - 1,
            pv == char_views(parts@),
            out@.len() == i,
            forall|k: int| 0 <= k < i ==> (#[trigger] out@[k])@ == without_return(pv[k]),
        decreases last - i,
    {
        let n: usize = parts[i].len();
        let end: usize = if n > 0 && parts[i][n - 1] == '\r' {
            n - 1
        } else {
            n
        };
        let line = copy_chars(&parts[i], 0, end);
        proof {
            assert(line@ =~= without_return(pv[i as int]));
        }
        out.push(line);
        i = i + 1;
    }
    if parts[last].len() > 0 {
        let line = copy_chars(&parts[last], 0, parts[last].len());
        proof {
            assert(line@ =~= pv[last as int]);
        }
        out.push(line);
    }
    proof {
        assert(char_views(out@) =~= want);
    }
    out
}

fn bare(chars: &[char]) -> (r: Vec<char>)
    ensures
        r@ == bare_cell(chars@),
{
    let t = trim_chars(chars);
    let mut a: usize = 0;
    let mut b: usize = t.len();
    proof {
        assert(t@.skip(0) =~= t@);
    }
    while a < b && t[a] == '"'
        invariant
            a <= b,
            b == t@.len(),
            unquoted_start(t@) == unquoted_start(t@.skip(a as int)),
        decreases b - a,
    {
        proof {
            assert(t@.skip(a as int).drop_first() =~= t@.skip(a as int + 1));
        }
        a = a + 1;
    }
    let ghost s = t@.skip(a as int);
    proof {
        assert(unquoted_start(t@) == s);
        assert(t@.subrange(a as int, b as int) =~= s);
    }
    while a < b && t[b - 1] == '"'
        invariant
            a <= b <= t@.len(),
            unquoted_end(s) == unquoted_end(t@.subrange(a as int, b as int)),
        decreases b - a,
    {
        proof {
            assert(t@.subrange(a as int, b as int).drop_last() =~= t@.subrange(a as int, b - 1));
        }
        b = b - 1;
    }
    copy_chars(&t, a, b)
}

/// Cuts a line into its cells.
pub fn split_cells(line: &[char], delimiter: char) -> (r: Vec<Vec<char>>)
    ensures
        char_views(r@) == line_cells(line@, delimiter),
{
    let parts = split_chars(line, delimiter);
    let ghost pv = char_views(parts@);
    let mut out: Vec<Vec<char>> = Vec::new();
    let mut i: usize = 0;
    while i < parts.len()
        invariant
            i <= parts@.len(),
            pv == char_views(parts@),
            out@.len() == i,
            forall|k: int| 0 <= k < i ==> (#[trigger] out@[k])@ == bare_cell(pv[k]),
        decreases parts@.len() - i,
    {
        out.push(bare(&parts[i]));
        i = i + 1;
    }
    proof {
        assert(char_views(out@) =~= line_cells(line@, delimiter));
    }
    out
}

fn read_cell(s: &[char], floats: &FloatTable) -> (r: JsonValue)
    ensures
        r@ == cell_value(s@, floats.reading(s@)),
{
    if let Some(i) = parse_int(s) {
        return JsonValue::Number(JsonNumber::Int(i));
    }
    let text = text_of(s);
    match floats.read(&text) {
        FloatReading::Json(bits, t) => JsonValue::Number(JsonNumber::Float(bits, t)),
        FloatReading::NoJson => JsonValue::String(text),
        FloatReading::NotFloat => {
            let low = lower_chars(s);
            if is_text(&low, "true") {
                JsonValue::Bool(true)
            } else if is_text(&low, "false") {
                JsonValue::Bool(false)
            } else if s.len() == 0 {
                JsonValue::Null
            } else {
                JsonValue::String(text)
            }
        },
    }
}

fn read_row(headers: &Vec<Vec<char>>, line: &[char], delimiter: char, floats: &FloatTable) -> (r: JsonValue)
    ensures
        r@ == Json::Object(
            row_fields(
                char_views(headers@),
                line_cells(line@, delimiter),
                *floats,
                headers@.len(),
            ),
        ),
{
    let cells = split_cells(line, delimiter);
    let ghost hv = char_views(headers@);
    let ghost cv = char_views(cells@);
    let empty: Vec<char> = Vec::new();
    let mut fields: Vec<(String, JsonValue)> = Vec::new();
    let mut i: usize = 0;
    proof {
        assert(field_views(fields@) =~= Seq::<(Seq<char>, Json)>::empty());
        assert(empty@ =~= Seq::<char>::empty());
    }
    while i < headers.len()
        invariant
            i <= headers@.len(),
            hv == char_views(headers@),
            cv == char_views(cells@),
            empty@ == Seq::<char>::empty(),
            field_views(fields@) == row_fields(hv, cv, *floats, i as nat),
        decreases headers@.len() - i,
    {
        let v: JsonValue = if i < cells.len() {
            read_cell(&cells[i], floats)
        } else {
            read_cell(&empty, floats)
        };
        let key = text_of(&headers[i]);
        proof {
            assert(key@ == hv[i as int]);
        }
        put_field(&mut fields, &key, v);
        i = i + 1;
    }
    proof {
        lemma_object_view(fields);
    }
    JsonValue::Object(fields)
}

fn read_separated(content: &str, delimiter: char, floats: &FloatTable) -> (r: Result<Vec<JsonValue>, String>)
    ensures
        rows_outcome(r) == separated_rows(content@, delimiter, *floats),
{
    let lines = split_lines(content);
    let ghost lv = char_views(lines@);
    if lines.len() == 0 {
        return Err("CSV file is empty".to_owned());
    }
    let headers = split_cells(&lines[0], delimiter);
    let ghost hv = char_views(headers@);
    let ghost rest = lv.drop_first();
    let mut out: Vec<JsonValue> = Vec::new();
    let mut i: usize = 1;
    proof {
        assert(rest.take(0) =~= Seq::<Seq<char>>::empty());
        assert(json_views(out@) =~= Seq::<Json>::empty());
    }
    while i < lines.len()
        invariant
            1 <= i <= lines@.len(),
            lv == char_views(lines@),
            hv == char_views(headers@),
            rest == lv.drop_first(),
            json_views(out@) == table_rows(hv, rest.take(i - 1), delimiter, *floats),
        decreases lines@.len() - i,
    {
        let ghost before = json_views(out@);
        proof {
            assert(rest.take(i as int).drop_last() =~= rest.take(i - 1));
            assert(rest.take(i as int).last() == lines@[i as int]@);
        }
        let t = trim_chars(&lines[i]);
        if t.len() > 0 {
            let row = read_row(&headers, &lines[i], delimiter, floats);
            let ghost rv = row@;
            out.push(row);
            proof {
                assert(json_views(out@) =~= before.push(rv));
            }
        }
        i = i + 1;
    }
    proof {
        assert(rest.take(i - 1) =~= rest);
    }
    Ok(out)
}

fn read_lines(content: &str) -> (r: Result<Vec<JsonValue>, String>)
    ensures
        rows_outcome(r) == line_rows(lines_of(content@)),
{
    let lines = split_lines(content);
    let ghost lv = char_views(lines@);
    let mut out: Vec<JsonValue> = Vec::new();
    let mut i: usize = 0;
    proof {
        assert(lv.take(0) =~= Seq::<Seq<char>>::empty());
        assert(json_views(out@) =~= Seq::<Json>::empty());
        assert(lv.take(lines@.len() as int) =~= lv);
    }
    while i < lines.len()
        invariant
            i <= lines@.len(),
            lv == char_views(lines@),
            lv == lines_of(content@),
            lv.take(lines@.len() as int) == lv,
            line_rows(lv.take(i as int)) == Ok::<Seq<Json>, Seq<char>>(json_views(out@)),
        decreases lines@.len() - i,
    {
        let ghost before = json_views(out@);
        proof {
            assert(lv.take(i as int + 1).drop_last() =~= lv.take(i as int));
            assert(lv.take(i as int + 1).last() == lines@[i as int]@);
        }
        let t = trim_chars(&lines[i]);
        if t.len() > 0 {
            let text = text_of(&lines[i]);
            match parse_json(text.as_str().as_bytes()) {
                Ok(v) => {
                    let ghost vv = v@;
                    out.push(v);
                    proof {
                        assert(json_views(out@) =~= before.push(vv));
                    }
                },
                Err(e) => {
                    let chars = chars_of(&e);
                    let m = message("Failed to parse NDJSON line: ", &chars, "");
                    proof {
                        reveal_strlit("");
                        assert(m@ =~= "Failed to parse NDJSON line: "@ + e@);
                        lemma_lines_failed(lv, i as int + 1);
                    }
                    return Err(m);
                },
            }
        }
        i = i + 1;
    }
    Ok(out)
}

proof fn lemma_lines_failed(lines: Seq<Seq<char>>, n: int)
    requires
        0 <= n <= lines.len(),
        line_rows(lines.take(n)) is Err,
    ensures
        line_rows(lines) == line_rows(lines.take(n)),
    decreases lines.len() - n,
{
    if n == lines.len() {
        assert(lines.take(n) =~= lines);
    } else {
        assert(lines.take(n + 1).drop_last() =~= lines.take(n));
        lemma_lines_failed(lines, n + 1);
    }
}

/// Reads the rows of a file, given its name and its content. `floats` tells what
/// the cells of a table are as floats.
pub fn read_file_rows(path: &str, content: &str, floats: &FloatTable) -> (r: Result<Vec<JsonValue>, String>)
    ensures
        rows_outcome(r) == file_rows(path@, content@, *floats),
{
    let p = chars_of(path);
    let ndjson = chars_of(".ndjson");
    let json = chars_of(".json");
    let tsv = chars_of(".tsv");
    let csv = chars_of(".csv");
    let parquet = chars_of(".parquet");
    if has_suffix(&p, &ndjson) {
        read_lines(content)
    } else if has_suffix(&p, &json) {
        match parse_json(content.as_bytes()) {
            Ok(v) => match v {
                JsonValue::Array(items) => {
                    proof {
                        lemma_array_view(items);
                    }
                    Ok(items)
                },
                JsonValue::Object(fields) => {
                    let v = JsonValue::Object(fields);
                    let ghost vv = v@;
                    let mut out: Vec<JsonValue> = Vec::new();
                    out.push(v);
                    proof {
                        assert(json_views(out@) =~= seq![vv]);
                    }
                    Ok(out)
                },
                _ => Err("JSON file must contain an array or object".to_owned()),
            },
            Err(e) => {
                let chars = chars_of(&e);
                let m = message("Failed to parse JSON: ", &chars, "");
                proof {
                    reveal_strlit("");
                    assert(m@ =~= "Failed to parse JSON: "@ + e@);
                }
                Err(m)
            },
        }
    } else if has_suffix(&p, &tsv) {
        read_separated(content, '\t', floats)
    } else if has_suffix(&p, &csv) {
        read_separated(content, ',', floats)
    } else if has_suffix(&p, &parquet) {
        Err("Parquet file reading not yet supported. Use CSV or JSON.".to_owned())
    } else {
        Err(message("Unsupported file format: '", &p, "'"))
    }
}

/// Every row of a table has each column of the first line.
pub proof fn rows_have_all_columns(headers: Seq<Seq<char>>, cells: Seq<Seq<char>>, floats: FloatTable, n: nat, i: int)
    requires
        n <= headers.len(),
        0 <= i < n,
    ensures
        crate::json::lookup(row_fields(headers, cells, floats, n), headers[i]) is Some,
    decreases n,
{
    let prev = row_fields(headers, cells, floats, (n - 1) as nat);
    let cell = if n <= cells.len() {
        cells[n - 1]
    } else {
        Seq::empty()
    };
    crate::json::put_then_lookup(
        prev,
        headers[n - 1],
        cell_value(cell, floats.reading(cell)),
        headers[i],
    );
    if i < n - 1 {
        rows_have_all_columns(headers, cells, floats, (n - 1) as nat, i);
    }
}

/// The cells of lines, line by line; blank lines have none.
pub open spec fn table_texts(lines: Seq<Seq<char>>, delimiter: char) -> Seq<Seq<char>>
    decreases lines.len(),
{
    if lines.len() == 0 {
        Seq::empty()
    } else {
        let prev = table_texts(lines.drop_last(), delimiter);
        if trimmed(lines.last()).len() == 0 {
            prev
        } else {
            prev + line_cells(lines.last(), delimiter)
        }
    }
}

/// The cells of a table below its first line, after the empty cell that stands for
/// each that is missing.
pub open spec fn separated_texts(content: Seq<char>, delimiter: char) -> Seq<Seq<char>> {
    let lines = lines_of(content);
    if lines.len() == 0 {
        Seq::empty()
    } else {
        seq![Seq::<char>::empty()] + table_texts(lines.drop_first(), delimiter)
    }
}

/// The texts of a file that may be read as floats.
pub open spec fn file_texts(path: Seq<char>, content: Seq<char>) -> Seq<Seq<char>> {
    if ends_with(path, ".ndjson"@) || ends_with(path, ".json"@) {
        Seq::empty()
    } else if ends_with(path, ".tsv"@) {
        separated_texts(content, '\t')
    } else if ends_with(path, ".csv"@) {
        separated_texts(content, ',')
    } else {
        Seq::empty()
    }
}

fn list_cells(content: &str, delimiter: char) -> (r: Vec<String>)
    ensures
        text_views(r@) == separated_texts(content@, delimiter),
{
    let lines = split_lines(content);
    let ghost lv = char_views(lines@);
    let mut out: Vec<String> = Vec::new();
    if lines.len() == 0 {
        proof {
            assert(text_views(out@) =~= Seq::<Seq<char>>::empty());
        }
        return out;
    }
    let ghost rest = lv.drop_first();
    let ghost first = seq![Seq::<char>::empty()];
    let none: Vec<char> = Vec::new();
    out.push(text_of(&none));
    let mut i: usize = 1;
    proof {
        assert(none@ =~= Seq::<char>::empty());
        assert(rest.take(0) =~= Seq::<Seq<char>>::empty());
        assert(text_views(out@) =~= first + table_texts(rest.take(0), delimiter));
    }
    while i < lines.len()
        invariant
            1 <= i <= lines@.len(),
            lv == char_views(lines@),
            rest == lv.drop_first(),
            text_views(out@) == first + table_texts(rest.take(i - 1), delimiter),
        decreases lines@.len() - i,
    {
        proof {
            assert(rest.take(i as int).drop_last() =~= rest.take(i - 1));
            assert(rest.take(i as int).last() == lines@[i as int]@);
        }
        let t = trim_chars(&lines[i]);
        if t.len() > 0 {
            let cells = split_cells(&lines[i], delimiter);
            let ghost cv = char_views(cells@);
            let ghost before = text_views(out@);
            let mut c: usize = 0;
            proof {
                assert(before + cv.take(0) =~= before);
            }
            while c < cells.len()
                invariant
                    c <= cells@.len(),
                    cv == char_views(cells@),
                    text_views(out@) == before + cv.take(c as int),
                decreases cells@.len() - c,
            {
                let ghost done = text_views(out@);
                let cell = text_of(&cells[c]);
                let ghost x = cell@;
                out.push(cell);
                proof {
                    assert(x == cv[c as int]);
                    assert(text_views(out@) =~= done.push(x));
                    assert(cv.take(c as int + 1) =~= cv.take(c as int).push(x));
                    assert(before + cv.take(c as int).push(x) =~= (before + cv.take(c as int)).push(x));
                }
                c = c + 1;
            }
            proof {
                assert(cv.take(c as int) =~= cv);
                assert(first + (table_texts(rest.take(i - 1), delimiter) + cv) =~= before + cv);
            }
        }
        i = i + 1;
    }
    proof {
        assert(rest.take(i - 1) =~= rest);
    }
    out
}

/// Lists the texts of a file that may be read as floats: what a table of floats
/// has to tell about.
pub fn cell_texts(path: &str, content: &str) -> (r: Vec<String>)
    ensures
        text_views(r@) == file_texts(path@, content@),
{
    let p = chars_of(path);
    let ndjson = chars_of(".ndjson");
    let json = chars_of(".json");
    let tsv = chars_of(".tsv");
    let csv = chars_of(".csv");
    let none: Vec<String> = Vec::new();
    proof {
        assert(text_views(none@) =~= Seq::<Seq<char>>::empty());
    }
    if has_suffix(&p, &ndjson) || has_suffix(&p, &json) {
        none
    } else if has_suffix(&p, &tsv) {
        list_cells(content, '\t')
    } else if has_suffix(&p, &csv) {
        list_cells(content, ',')
    } else {
        none
    }
}

proof fn lemma_fields_alike(headers: Seq<Seq<char>>, cells: Seq<Seq<char>>, a: FloatTable, b: FloatTable, n: nat)
    requires
        tell_alike(a, b, cells),
        a.reading(Seq::empty()) == b.reading(Seq::empty()),
    ensures
        row_fields(headers, cells, a, n) == row_fields(headers, cells, b, n),
    decreases n,
{
    if n > 0 {
        lemma_fields_alike(headers, cells, a, b, (n - 1) as nat);
    }
}

proof fn lemma_rows_alike(headers: Seq<Seq<char>>, lines: Seq<Seq<char>>, delimiter: char, a: FloatTable, b: FloatTable)
    requires
        tell_alike(a, b, table_texts(lines, delimiter)),
        a.reading(Seq::empty()) == b.reading(Seq::empty()),
    ensures
        table_rows(headers, lines, delimiter, a) == table_rows(headers, lines, delimiter, b),
    decreases lines.len(),
{
    if lines.len() > 0 {
        let all = table_texts(lines, delimiter);
        let prev = table_texts(lines.drop_last(), delimiter);
        let cells = line_cells(lines.last(), delimiter);
        assert forall|i: int| 0 <= i < prev.len() implies a.reading(#[trigger] prev[i]) == b.reading(prev[i]) by {
            assert(all[i] == prev[i]);
        }
        lemma_rows_alike(headers, lines.drop_last(), delimiter, a, b);
        if trimmed(lines.last()).len() != 0 {
            assert forall|i: int| 0 <= i < cells.len() implies a.reading(#[trigger] cells[i]) == b.reading(
                cells[i],
            ) by {
                assert(all[prev.len() + i] == cells[i]);
            }
            lemma_fields_alike(headers, cells, a, b, headers.len());
        }
    }
}

/// The rows of a file depend on a table of floats only in what it tells of the
/// listed texts.
pub proof fn rows_need_only_their_texts(path: Seq<char>, content: Seq<char>, a: FloatTable, b: FloatTable)
    requires
        tell_alike(a, b, file_texts(path, content)),
    ensures
        file_rows(path, content, a) == file_rows(path, content, b),
{
    let lines = lines_of(content);
    let texts = file_texts(path, content);
    if texts.len() > 0 {
        let delimiter = if ends_with(path, ".tsv"@) {
            '\t'
        } else {
            ','
        };
        let rest = table_texts(lines.drop_first(), delimiter);
        assert(texts[0] == Seq::<char>::empty());
        assert forall|i: int| 0 <= i < rest.len() implies a.reading(#[trigger] rest[i]) == b.reading(rest[i]) by {
            assert(texts[1 + i] == rest[i]);
        }
        lemma_rows_alike(line_cells(lines[0], delimiter), lines.drop_first(), delimiter, a, b);
    }
}

} // verus!
