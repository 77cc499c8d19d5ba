//! What is typed, read from files and shown: commands, rows, tables, counts.

use vstd::prelude::*;
use vstd::string::*;
use crate::file_rows::{bare_cell, cell_value, file_rows, line_cells, line_rows, lines_of, row_fields, separated_rows,
    table_rows, unquoted_end, unquoted_start, value_rows};
use crate::json::{json_parsed, json_shown, lookup, member, put_then_lookup, Json, Number};
use crate::index::keys_of_texts;
use crate::infer::masked;
use crate::repl::{command_of, fed, first_space, meta_arg, recorded, without_semicolons, CommandView,
    REPL_HISTORY_LIMIT, StepView};
use crate::report::{byte_len, cells_of_row, cleared_count, column_width, gc_does, headers_of, is_format,
    optimized_count, padded, padded_left, short, sum_of, table_cell, table_line, table_text, vacuum_does, widths_of,
    Compaction, GcStep, OutputFormat};
use crate::shown::{asked, has_name, is_listed, narrowed, passes_all, passing, shown_rows, stuck, Compared, Shown,
    ShownPredicate};
use crate::tally::{how_many, sum_to};
use crate::text::{ascii_lowered, decimal_int, ends_with, int_value, is_space, split, trimmed};
use crate::text_laws::{blanks_are_white_space, numbers_read_back, only_digits_are_numbers, trimmed_texts_stay};
use crate::typed::TypedView;
use crate::values::{common_kind, host_column, host_json, kind_of, HostValue, Kind};
use crate::where_clause::{FloatTable, ReadingView};

verus! {

proof fn lemma_first_space(w: Seq<char>, x: Seq<char>, i: int)
    requires
        0 <= i <= w.len(),
        forall|k: int| 0 <= k < w.len() ==> !is_space(#[trigger] w[k]),
    ensures
        first_space(w.push(' ') + x, i) == w.len(),
        first_space(w, i) == w.len(),
    decreases w.len() - i,
{
    let s = w.push(' ') + x;
    if i < w.len() {
        lemma_first_space(w, x, i + 1);
        assert(s[i] == w[i]);
    } else {
        assert(s[i] == ' ');
    }
}

proof fn lemma_command(w: Seq<char>, x: Seq<char>)
    requires
        w.len() > 0,
        x.len() > 0,
        forall|k: int| 0 <= k < w.len() ==> !is_space(#[trigger] w[k]),
        !is_space(x[0]),
        !is_space(x.last()),
    ensures
        ({
            let t = w.push(' ') + x;
            trimmed(t) == t && t[0] == w[0] && t.subrange(0, first_space(t, 0)) == w && meta_arg(t) == x
        }),
        trimmed(w) == w && w.subrange(0, first_space(w, 0)) == w && meta_arg(w).len() == 0,
{
    let t = w.push(' ') + x;
    lemma_first_space(w, x, 0);
    assert(t[0] == w[0]);
    assert(t.last() == x.last());
    trimmed_texts_stay(t);
    assert(w.last() == w[w.len() - 1]);
    trimmed_texts_stay(w);
    trimmed_texts_stay(x);
    assert(t.subrange(0, w.len() as int) =~= w);
    assert(w.subrange(0, w.len() as int) =~= w);
    assert(t.subrange(w.len() + 1int, t.len() as int) =~= x);
}

/// A command that starts with a backslash is known by its word, and takes what follows
/// that; other lines are statements.
pub proof fn commands_are_known_by_their_words(x: Seq<char>)
    requires
        x.len() > 0,
        !is_space(x[0]),
        !is_space(x.last()),
    ensures
        command_of("\\d"@.push(' ') + x) == CommandView::Describe(x),
        command_of("\\describe"@.push(' ') + x) == CommandView::Describe(x),
        command_of("\\b"@.push(' ') + x) == CommandView::Branches(x),
        command_of("\\!"@.push(' ') + x) == CommandView::Shell(x),
        command_of("\\l"@) == CommandView::ListCollections && command_of("\\list"@) == CommandView::ListCollections,
        command_of("\\h"@) == CommandView::Help && command_of("\\help"@) == CommandView::Help && command_of("\\?"@)
            == CommandView::Help,
        command_of("\\history"@) == CommandView::History,
        command_of("\\q"@) == CommandView::Quit && command_of("\\quit"@) == CommandView::Quit,
        x[0] != '\\' && ascii_lowered(x) != "exit"@ && ascii_lowered(x) != "quit"@ ==> command_of(x) == CommandView::Sql(x),
        ascii_lowered(x) == "exit"@ || ascii_lowered(x) == "quit"@ ==> command_of(x) == CommandView::Quit,
{
    reveal_strlit("\\d");
    reveal_strlit("\\describe");
    reveal_strlit("\\b");
    reveal_strlit("\\!");
    reveal_strlit("\\l");
    reveal_strlit("\\list");
    reveal_strlit("\\h");
    reveal_strlit("\\help");
    reveal_strlit("\\?");
    reveal_strlit("\\history");
    reveal_strlit("\\q");
    reveal_strlit("\\quit");
    reveal_strlit("exit");
    reveal_strlit("quit");
    assert("\\d"@[1] == 'd' && "\\d"@.len() == 2 && "\\describe"@.len() == 9 && "\\b"@[1] == 'b' && "\\!"@[1] == '!'
        && "\\l"@[1] == 'l' && "\\list"@.len() == 5 && "\\list"@[1] == 'l' && "\\h"@[1] == 'h' && "\\help"@.len() == 5
        && "\\help"@[1] == 'h' && "\\?"@[1] == '?' && "\\history"@.len() == 8 && "\\q"@[1] == 'q' && "\\quit"@.len() == 5
        && "\\quit"@[1] == 'q');
    lemma_command("\\d"@, x);
    lemma_command("\\describe"@, x);
    lemma_command("\\b"@, x);
    lemma_command("\\!"@, x);
    lemma_command("\\l"@, x);
    lemma_command("\\list"@, x);
    lemma_command("\\h"@, x);
    lemma_command("\\help"@, x);
    lemma_command("\\?"@, x);
    lemma_command("\\history"@, x);
    lemma_command("\\q"@, x);
    lemma_command("\\quit"@, x);
    trimmed_texts_stay(x);
    let low = ascii_lowered(x);
    assert(low.len() == x.len());
    assert("exit"@[0] == 'e' && "quit"@[0] == 'q');
    assert(x[0] == '\\' ==> low[0] == '\\');
}

/// A statement is executed as soon as a line ends it with a semicolon, and is then all
/// the lines since the last with a blank between them; until that the shell waits. A
/// blank line changes nothing.
pub proof fn statements_are_executed_at_their_end(buffer: Seq<char>, x: Seq<char>, y: Seq<char>)
    requires
        x.len() > 0,
        y.len() > 0,
        trimmed(x) == x,
        trimmed(y) == y,
        x[0] != '\\',
        y[0] != '\\',
        ascii_lowered(x) != "exit"@ && ascii_lowered(x) != "quit"@,
        ascii_lowered(y) != "exit"@ && ascii_lowered(y) != "quit"@,
    ensures
        x.last() == ';' ==> fed(Seq::empty(), x) == (StepView::Execute(x), Seq::<char>::empty()),
        x.last() != ';' ==> fed(Seq::empty(), x) == (StepView::Wait, x),
        x.last() != ';' && y.last() == ';' ==> fed(fed(Seq::empty(), x).1, y) == (
            StepView::Execute(x.push(' ') + y),
            Seq::<char>::empty(),
        ),
        buffer.len() > 0 && y.last() == ';' ==> fed(buffer, y) == (
            StepView::Execute(buffer.push(' ') + y),
            Seq::<char>::empty(),
        ),
        buffer.len() > 0 && y.last() != ';' ==> fed(buffer, y) == (StepView::Wait, buffer.push(' ') + y),
        fed(buffer, Seq::empty()) == (StepView::Wait, buffer),
{
    assert((x.push(' ') + y).last() == y.last());
    assert((buffer.push(' ') + y).last() == y.last());
    assert(trimmed(Seq::<char>::empty()).len() == 0);
}

/// The history ends with the last line that was not blank, and has the lines before it
/// in their order, the oldest left out where there are too many.
pub proof fn history_ends_with_the_last_line(history: Seq<Seq<char>>, line: Seq<char>, i: int)
    requires
        history.len() <= REPL_HISTORY_LIMIT,
    ensures
        REPL_HISTORY_LIMIT == 100,
        trimmed(line).len() == 0 ==> recorded(history, line) == history,
        trimmed(line).len() > 0 ==> recorded(history, line).len() > 0 && recorded(history, line).last() == trimmed(line),
        trimmed(line).len() > 0 && history.len() < REPL_HISTORY_LIMIT ==> recorded(history, line).drop_last() == history,
        trimmed(line).len() > 0 && history.len() == REPL_HISTORY_LIMIT ==> recorded(history, line).len()
            == REPL_HISTORY_LIMIT && (0 <= i < history.len() - 1 ==> recorded(history, line)[i] == history[i + 1]),
{
    let t = trimmed(line);
    assert(history.push(t).drop_last() =~= history);
}

/// Only semicolons are cut off the end, and all of them.
pub proof fn semicolons_are_cut_off(s: Seq<char>)
    ensures
        ({
            let r = without_semicolons(s);
            &&& r.len() <= s.len() && s.take(r.len() as int) == r
            &&& r.len() > 0 ==> r.last() != ';'
            &&& forall|i: int| r.len() <= i < s.len() ==> #[trigger] s[i] == ';'
        }),
    decreases s.len(),
{
    if s.len() > 0 && s.last() == ';' {
        let t = s.drop_last();
        semicolons_are_cut_off(t);
        let r = without_semicolons(t);
        assert(s.take(r.len() as int) =~= t.take(r.len() as int));
        assert forall|i: int| r.len() <= i < s.len() implies #[trigger] s[i] == ';' by {
            if i < t.len() {
                assert(s[i] == t[i]);
            }
        }
    } else {
        assert(s.take(s.len() as int) =~= s);
    }
}

/// A padded text has the width that is asked for, or its own where that is more: the
/// text, and blanks on one side of it.
pub proof fn padding_fills_with_blanks(s: Seq<char>, width: nat, i: int)
    ensures
        padded(s, width).len() == (if s.len() < width {
            width
        } else {
            s.len()
        }),
        padded(s, width).take(s.len() as int) == s,
        s.len() <= i < padded(s, width).len() ==> padded(s, width)[i] == ' ',
        padded_left(s, width).len() == padded(s, width).len(),
        padded_left(s, width).skip(padded_left(s, width).len() - s.len()) == s,
        0 <= i < padded_left(s, width).len() - s.len() ==> padded_left(s, width)[i] == ' ',
{
    assert(padded(s, width).take(s.len() as int) =~= s);
    assert(padded_left(s, width).skip(padded_left(s, width).len() - s.len()) =~= s);
}

/// A column is as wide as the widest of its header and its cells.
pub proof fn columns_fit_their_cells(rows: Seq<Json>, header: Seq<char>, n: nat)
    requires
        n <= rows.len(),
    ensures
        column_width(rows, header, n) >= byte_len(header),
        forall|i: int| 0 <= i < n ==> column_width(rows, header, n) >= byte_len(table_cell(#[trigger] rows[i], header)),
        column_width(rows, header, n) == byte_len(header) || exists|i: int|
            0 <= i < n && column_width(rows, header, n) == byte_len(table_cell(#[trigger] rows[i], header)),
    decreases n,
{
    if n > 0 {
        columns_fit_their_cells(rows, header, (n - 1) as nat);
        let w = byte_len(table_cell(rows[n - 1], header));
        let prev = column_width(rows, header, (n - 1) as nat);
        if w <= prev && prev != byte_len(header) {
            let i = choose|i: int| 0 <= i < n - 1 && prev == byte_len(table_cell(#[trigger] rows[i], header));
            assert(column_width(rows, header, n) == byte_len(table_cell(rows[i], header)));
        }
    }
}

/// A table has a line for its headers, a rule as long as that, and a line for each row.
pub proof fn tables_have_a_line_per_row(rows: Seq<Json>, i: int)
    requires
        rows.len() > 0,
        0 <= i < rows.len(),
    ensures
        table_text(rows).len() == rows.len() + 2,
        table_text(rows)[0] == table_line(headers_of(rows), widths_of(rows)),
        table_text(rows)[1].len() == byte_len(table_text(rows)[0]),
        forall|k: int| 0 <= k < table_text(rows)[1].len() ==> #[trigger] table_text(rows)[1][k] == '-',
        table_text(rows)[i + 2] == table_line(cells_of_row(rows[i], headers_of(rows)), widths_of(rows)),
        table_text(Seq::<Json>::empty()) == seq!["(no rows)"@],
{
}

/// A short hash is the first twelve characters.
pub proof fn short_hashes_are_the_start(hash: Seq<char>)
    ensures
        hash.len() >= 12 ==> short(hash).len() == 12 && hash.take(12) == short(hash),
        hash.len() < 12 ==> short(hash) == hash,
{
}

/// The counts of a report: rows are added up; a collection is optimized where nothing
/// failed; cleared shards are added up.
pub proof fn reports_add_up(counts: Seq<u32>, outcomes: Seq<Compaction>)
    ensures
        sum_of(counts) == sum_to(counts.len(), |i: int| counts[i] as nat),
        optimized_count(outcomes) == how_many(outcomes.len(), |i: int| !(outcomes[i] is Failed)),
        cleared_count(outcomes) == sum_to(
            outcomes.len(),
            |i: int|
                match outcomes[i] {
                    Compaction::Cleared(n) => n as nat,
                    _ => 0,
                },
        ),
{
    lemma_sum(counts, counts.len());
    assert(counts.take(counts.len() as int) =~= counts);
    lemma_outcomes(outcomes, outcomes.len());
    assert(outcomes.take(outcomes.len() as int) =~= outcomes);
}

proof fn lemma_sum(counts: Seq<u32>, n: nat)
    requires
        n <= counts.len(),
    ensures
        sum_of(counts.take(n as int)) == sum_to(n, |i: int| counts[i] as nat),
    decreases n,
{
    let f = |i: int| counts[i] as nat;
    if n > 0 {
        lemma_sum(counts, (n - 1) as nat);
        assert(counts.take(n as int).drop_last() =~= counts.take(n - 1));
        assert(sum_to(n, f) == sum_to((n - 1) as nat, f) + f(n - 1));
    } else {
        assert(sum_to(0, f) == 0);
    }
}

proof fn lemma_outcomes(outcomes: Seq<Compaction>, n: nat)
    requires
        n <= outcomes.len(),
    ensures
        optimized_count(outcomes.take(n as int)) == how_many(n, |i: int| !(outcomes[i] is Failed)),
        cleared_count(outcomes.take(n as int)) == sum_to(
            n,
            |i: int|
                match outcomes[i] {
                    Compaction::Cleared(n) => n as nat,
                    _ => 0,
                },
        ),
    decreases n,
{
    let p = |i: int| !(outcomes[i] is Failed);
    let f = |i: int|
        match outcomes[i] {
            Compaction::Cleared(n) => n as nat,
            _ => 0,
        };
    if n > 0 {
        lemma_outcomes(outcomes, (n - 1) as nat);
        assert(outcomes.take(n as int).drop_last() =~= outcomes.take(n - 1));
        assert(outcomes.take(n as int).last() == outcomes[n - 1]);
        assert(sum_to(n, f) == sum_to((n - 1) as nat, f) + f(n - 1));
        assert(how_many(n, p) == how_many((n - 1) as nat, p) + if p(n - 1) {
            1nat
        } else {
            0nat
        });
    } else {
        assert(sum_to(0, f) == 0);
        assert(how_many(0, p) == 0);
    }
}

/// The order of two numbers, as a comparison tells it.
pub open spec fn order_of(x: int, y: int) -> Compared {
    if x < y {
        Compared::Less
    } else if x == y {
        Compared::Equal
    } else {
        Compared::Greater
    }
}

/// The operators of a predicate mean their signs.
pub proof fn shown_comparisons_mean_their_signs(x: int, y: int, op: Seq<char>)
    ensures
        asked("="@, order_of(x, y)) == Some(x == y),
        asked("=="@, order_of(x, y)) == Some(x == y),
        asked("!="@, order_of(x, y)) == Some(x != y),
        asked("<"@, order_of(x, y)) == Some(x < y),
        asked("<="@, order_of(x, y)) == Some(x <= y),
        asked(">"@, order_of(x, y)) == Some(x > y),
        asked(">="@, order_of(x, y)) == Some(x >= y),
        op != "="@ && op != "=="@ && op != "!="@ && op != "<"@ && op != "<="@ && op != ">"@ && op != ">="@ ==> asked(
            op,
            order_of(x, y),
        ) is None,
{
    reveal_strlit("=");
    reveal_strlit("==");
    reveal_strlit("!=");
    reveal_strlit("<");
    reveal_strlit("<=");
    reveal_strlit(">");
    reveal_strlit(">=");
    assert("="@[0] == '=' && "=="@[0] == '=' && "!="@[0] == '!' && "<"@[0] == '<' && "<="@[0] == '<' && ">"@[0] == '>'
        && ">="@[0] == '>');
    assert("="@.len() == 1 && "=="@.len() == 2 && "!="@.len() == 2 && "<"@.len() == 1 && "<="@.len() == 2 && ">"@.len() == 1
        && ">="@.len() == 2);
}

/// A column is filtered by where the first column of its name is a list.
pub proof fn the_first_column_of_a_name_counts(columns: Seq<(String, Shown)>, name: Seq<char>)
    ensures
        is_listed(columns, name) <==> exists|i: int|
            0 <= i < columns.len() && (#[trigger] columns[i]).0@ == name && columns[i].1 is List && forall|j: int|
                0 <= j < i ==> (#[trigger] columns[j]).0@ != name,
    decreases columns.len(),
{
    if columns.len() > 0 {
        let rest = columns.drop_last();
        the_first_column_of_a_name_counts(rest, name);
        let last = columns.len() - 1;
        if is_listed(columns, name) {
            if has_name(rest, name) {
                let i = choose|i: int|
                    0 <= i < rest.len() && (#[trigger] rest[i]).0@ == name && rest[i].1 is List && forall|j: int|
                        0 <= j < i ==> (#[trigger] rest[j]).0@ != name;
                assert(columns[i] == rest[i]);
                assert forall|j: int| 0 <= j < i implies (#[trigger] columns[j]).0@ != name by {
                    assert(rest[j] == columns[j]);
                }
            } else {
                assert(columns[last].0@ == name);
                assert forall|j: int| 0 <= j < last implies (#[trigger] columns[j]).0@ != name by {
                    assert(rest[j] == columns[j]);
                }
            }
        }
        if exists|i: int|
            0 <= i < columns.len() && (#[trigger] columns[i]).0@ == name && columns[i].1 is List && forall|j: int|
                0 <= j < i ==> (#[trigger] columns[j]).0@ != name {
            let i = choose|i: int|
                0 <= i < columns.len() && (#[trigger] columns[i]).0@ == name && columns[i].1 is List && forall|j: int|
                    0 <= j < i ==> (#[trigger] columns[j]).0@ != name;
            if i < last {
                assert(rest[i] == columns[i]);
                assert(rest[i].0@ == name);
                assert forall|j: int| 0 <= j < i implies (#[trigger] rest[j]).0@ != name by {
                    assert(rest[j] == columns[j]);
                }
                assert(has_name(rest, name));
            } else {
                if has_name(rest, name) {
                    let j = choose|j: int| 0 <= j < rest.len() && (#[trigger] rest[j]).0@ == name;
                    assert(columns[j] == rest[j]);
                }
            }
        }
    }
}

/// A result has as many rows as its first list has values.
pub proof fn the_first_list_counts_the_rows(columns: Seq<(String, Shown)>)
    ensures
        match shown_rows(columns) {
            Some(n) => exists|i: int|
                0 <= i < columns.len() && (#[trigger] columns[i]).1 is List && columns[i].1->List_0@.len() == n && forall|
                    j: int,
                |
                    0 <= j < i ==> (#[trigger] columns[j]).1 is Single,
            None => forall|j: int| 0 <= j < columns.len() ==> (#[trigger] columns[j]).1 is Single,
        },
    decreases columns.len(),
{
    if columns.len() > 0 {
        let rest = columns.drop_last();
        the_first_list_counts_the_rows(rest);
        let last = columns.len() - 1;
        match shown_rows(rest) {
            Some(n) => {
                let i = choose|i: int|
                    0 <= i < rest.len() && (#[trigger] rest[i]).1 is List && rest[i].1->List_0@.len() == n && forall|j: int|
                        0 <= j < i ==> (#[trigger] rest[j]).1 is Single;
                assert(columns[i] == rest[i]);
                assert forall|j: int| 0 <= j < i implies (#[trigger] columns[j]).1 is Single by {
                    assert(rest[j] == columns[j]);
                }
            },
            None => {
                assert(columns[last] == columns.last());
                assert forall|j: int| 0 <= j < last implies (#[trigger] columns[j]).1 is Single by {
                    assert(rest[j] == columns[j]);
                }
            },
        }
    }
}

/// A row is shown just where no predicate on a list refuses it.
pub proof fn rows_are_shown_where_all_agree(columns: Seq<(String, Shown)>, preds: Seq<ShownPredicate>, rows: nat, i: int)
    requires
        0 <= i < rows,
    ensures
        passing(columns, preds, rows).len() == rows,
        passing(columns, preds, rows)[i] <==> !exists|p: int|
            0 <= p < preds.len() && is_listed(columns, (#[trigger] preds[p]).column@) && asked(
                preds[p].op@,
                preds[p].compared@[i],
            ) == Some(false),
{
    assert(passing(columns, preds, rows)[i] == passes_all(columns, preds, preds.len() as int, i));
}

/// The number of the last header below `n` of a name.
pub open spec fn last_header(headers: Seq<Seq<char>>, name: Seq<char>, n: nat) -> Option<int>
    decreases n,
{
    if n == 0 {
        None
    } else if headers[n - 1] == name {
        Some(n - 1)
    } else {
        last_header(headers, name, (n - 1) as nat)
    }
}

/// A row of a file has under each header the value of the cell in that place, where a
/// header comes twice of the last; a cell that is missing is empty; there is nothing
/// under other names.
pub proof fn file_rows_have_cells_under_headers(
    headers: Seq<Seq<char>>,
    cells: Seq<Seq<char>>,
    floats: FloatTable,
    n: nat,
    name: Seq<char>,
)
    requires
        n <= headers.len(),
    ensures
        lookup(row_fields(headers, cells, floats, n), name) == (match last_header(headers, name, n) {
            Some(i) => if i < cells.len() {
                Some(cell_value(cells[i], floats.reading(cells[i])))
            } else {
                Some(cell_value(Seq::empty(), floats.reading(Seq::empty())))
            },
            None => None,
        }),
    decreases n,
{
    if n > 0 {
        file_rows_have_cells_under_headers(headers, cells, floats, (n - 1) as nat, name);
        let cell = if n <= cells.len() {
            cells[n - 1]
        } else {
            Seq::empty()
        };
        put_then_lookup(
            row_fields(headers, cells, floats, (n - 1) as nat),
            headers[n - 1],
            cell_value(cell, floats.reading(cell)),
            name,
        );
    }
}

/// A cell of a file holds a whole number, a float, a boolean, nothing or a text.
pub proof fn cells_say_their_values(v: i64, reading: ReadingView, bits: u64, text: Seq<char>, s: Seq<char>)
    ensures
        cell_value(decimal_int(v as int), reading) == Json::Number(Number::Int(v)),
        int_value(s) is None ==> cell_value(s, ReadingView::Json(bits, text)) == Json::Number(Number::Float(bits, text)),
        cell_value(Seq::empty(), ReadingView::NotFloat) == Json::Null,
        ascii_lowered(s) == "true"@ ==> cell_value(s, ReadingView::NotFloat) == Json::Bool(true),
        ascii_lowered(s) == "false"@ ==> cell_value(s, ReadingView::NotFloat) == Json::Bool(false),
        int_value(s) is None && s.len() > 0 && ascii_lowered(s) != "true"@ && ascii_lowered(s) != "false"@ ==> cell_value(
            s,
            ReadingView::NotFloat,
        ) == Json::String(s),
{
    numbers_read_back(v);
    reveal_strlit("true");
    reveal_strlit("false");
    assert("true"@[0] == 't' && "false"@[0] == 'f' && "true"@.len() == 4 && "false"@.len() == 5);
    let low = ascii_lowered(s);
    assert(low.len() == s.len());
    if low == "true"@ || low == "false"@ {
        assert(low[0] == 't' || low[0] == 'f');
        if int_value(s) is Some {
            only_digits_are_numbers(s, 0);
        }
    }
    let none = Seq::<char>::empty();
    if int_value(none) is Some {
        assert(none.len() == 0);
    }
    assert(ascii_lowered(none).len() == 0);
}

proof fn lemma_unquoted(s: Seq<char>)
    requires
        s.len() > 0 ==> s[0] != '"' && s.last() != '"',
    ensures
        unquoted_start(s) == s,
        unquoted_end(s) == s,
        unquoted_start(seq!['"'] + s) == s,
        s.len() > 0 ==> unquoted_end(s.push('"')) == s && unquoted_start(seq!['"'] + s.push('"')) == s.push('"'),
{
    assert((seq!['"'] + s).drop_first() =~= s);
    assert(s.push('"').drop_last() =~= s);
    let q = seq!['"'] + s.push('"');
    assert(q.drop_first() =~= s.push('"'));
    assert(unquoted_start(s) == s);
    assert(unquoted_end(s) == s);
    assert((seq!['"'] + s)[0] == '"');
    assert(unquoted_start(seq!['"'] + s) == unquoted_start(s));
    if s.len() > 0 {
        assert(s.push('"')[0] == s[0]);
        assert(unquoted_start(s.push('"')) == s.push('"'));
        assert(unquoted_end(s.push('"')) == unquoted_end(s));
        assert(unquoted_start(q) == unquoted_start(s.push('"')));
    }
}

/// A cell is read without the white space and the quotes round it.
pub proof fn cells_are_read_without_quotes(s: Seq<char>)
    requires
        s.len() > 0,
        !is_space(s[0]) && s[0] != '"',
        !is_space(s.last()) && s.last() != '"',
    ensures
        bare_cell(s) == s,
        bare_cell(seq!['"'] + s.push('"')) == s,
        bare_cell(seq![' '] + s.push(' ')) == s,
{
    lemma_unquoted(s);
    trimmed_texts_stay(s);
    let q = seq!['"'] + s.push('"');
    assert(q.last() == '"');
    blanks_are_white_space('"');
    trimmed_texts_stay(q);
    let b = seq![' '] + s.push(' ');
    assert(b.drop_first() =~= s.push(' '));
    assert(s.push(' ')[0] == s[0]);
    assert(s.push(' ').drop_last() =~= s);
    assert(crate::text::trim_start(s.push(' ')) == s.push(' '));
    assert(crate::text::trim_start(b) == s.push(' '));
    assert(crate::text::trim_end(s) == s);
    assert(crate::text::trim_end(s.push(' ')) == s);
}

/// A line that is not blank gives one row, in the order of the lines, with the cells of
/// that line.
pub proof fn lines_give_rows_in_order(
    headers: Seq<Seq<char>>,
    lines: Seq<Seq<char>>,
    delimiter: char,
    floats: FloatTable,
    n: nat,
    i: int,
)
    requires
        n <= lines.len(),
        0 <= i < n,
    ensures
        ({
            let rows = table_rows(headers, lines.take(n as int), delimiter, floats);
            let at = how_many(i as nat, |j: int| trimmed(lines[j]).len() > 0) as int;
            &&& rows.len() == how_many(n, |j: int| trimmed(lines[j]).len() > 0)
            &&& trimmed(lines[i]).len() > 0 ==> at < rows.len() && rows[at] == Json::Object(
                row_fields(headers, line_cells(lines[i], delimiter), floats, headers.len()),
            )
        }),
    decreases n,
{
    let p = |j: int| trimmed(lines[j]).len() > 0;
    let m = (n - 1) as nat;
    assert(how_many(n, p) == how_many(m, p) + if trimmed(lines[n - 1]).len() > 0 {
        1nat
    } else {
        0nat
    });
    assert(how_many(0, p) == 0);
    assert(lines.take(n as int).drop_last() =~= lines.take(m as int));
    assert(lines.take(n as int).last() == lines[n - 1]);
    if m > 0 {
        lines_give_rows_in_order(headers, lines, delimiter, floats, m, if i < m {
            i
        } else {
            0
        });
    } else {
        assert(lines.take(0).len() == 0);
        assert(table_rows(headers, lines.take(0), delimiter, floats).len() == 0);
    }
}

/// A text of one line is that line, with or without a line end; a line end starts the
/// next line.
pub proof fn lines_end_at_line_feeds(a: Seq<char>, b: Seq<char>)
    requires
        a.len() > 0,
        !a.contains('\n'),
        a.last() != '\r',
        b.len() > 0,
        !b.contains('\n'),
    ensures
        lines_of(a) == seq![a],
        lines_of(a.push('\n')) == seq![a],
        lines_of(a.push('\r').push('\n')) == seq![a],
        lines_of(a.push('\n') + b) == seq![a, b],
{
    let none = Seq::<char>::empty();
    crate::plan_laws::pieces_of_joined_texts(a, none, '\n');
    assert(a.push('\n') + none =~= a.push('\n'));
    crate::plan_laws::pieces_of_joined_texts(none, none, '\n');
    crate::plan_laws::pieces_of_joined_texts(a, b, '\n');
    crate::plan_laws::pieces_of_joined_texts(b, none, '\n');
    let r = a.push('\r');
    if r.contains('\n') {
        let k = choose|k: int| 0 <= k < r.len() && r[k] == '\n';
        assert(a[k] == '\n');
    }
    crate::plan_laws::pieces_of_joined_texts(r, none, '\n');
    assert(r.push('\n') + none =~= r.push('\n'));
    assert(r.drop_last() =~= a);
    assert(split(a, '\n') =~= seq![a]);
    assert(lines_of(a) =~= seq![a]);
    assert(split(a.push('\n'), '\n') =~= seq![a, none]);
    assert(lines_of(a.push('\n')) =~= seq![a]);
    assert(split(r.push('\n'), '\n') =~= seq![r, none]);
    assert(lines_of(r.push('\n')) =~= seq![a]);
    assert(split(a.push('\n') + b, '\n') =~= seq![a, b]);
    assert(lines_of(a.push('\n') + b) =~= seq![a, b]);
}

/// A table file has its columns in its first line and its rows in the others; the rows
/// of a JSON value are those of a list, or the object itself.
pub proof fn the_first_line_names_the_columns(content: Seq<char>, delimiter: char, floats: FloatTable, v: Json, items: Seq<Json>)
    ensures
        lines_of(content).len() == 0 ==> separated_rows(content, delimiter, floats) is Err,
        lines_of(content).len() > 0 ==> separated_rows(content, delimiter, floats) == Ok::<Seq<Json>, Seq<char>>(
            table_rows(line_cells(lines_of(content)[0], delimiter), lines_of(content).skip(1), delimiter, floats),
        ),
        value_rows(Json::Array(items)) == Ok::<Seq<Json>, Seq<char>>(items),
        v is Object ==> value_rows(v) == Ok::<Seq<Json>, Seq<char>>(seq![v]),
        !(v is Object) && !(v is Array) ==> value_rows(v) is Err,
{
    let lines = lines_of(content);
    if lines.len() > 0 {
        assert(lines.drop_first() =~= lines.skip(1));
    }
}

proof fn lemma_ending(base: Seq<char>, ending: Seq<char>, other: Seq<char>, d: int)
    requires
        0 < d <= ending.len(),
        d <= other.len(),
        ending[ending.len() - d] != other[other.len() - d],
    ensures
        ends_with(base + ending, ending),
        !ends_with(base + ending, other),
{
    let s = base + ending;
    assert(s.subrange(s.len() - ending.len(), s.len() as int) =~= ending);
    if ends_with(s, other) {
        let t = s.subrange(s.len() - other.len(), s.len() as int);
        assert(t[other.len() - d] == s[s.len() - d]);
    }
}

/// The ending of a file's name says how it is read: with commas or tabs between cells, a
/// JSON value on each line, or one JSON value.
pub proof fn endings_say_how_a_file_is_read(base: Seq<char>, content: Seq<char>, floats: FloatTable)
    ensures
        file_rows(base + ".csv"@, content, floats) == separated_rows(content, ',', floats),
        file_rows(base + ".tsv"@, content, floats) == separated_rows(content, '\t', floats),
        file_rows(base + ".ndjson"@, content, floats) == line_rows(lines_of(content)),
        file_rows(base + ".parquet"@, content, floats) is Err,
        match json_parsed(vstd::utf8::encode_utf8(content)) {
            Ok(v) => file_rows(base + ".json"@, content, floats) == value_rows(v),
            Err(_) => file_rows(base + ".json"@, content, floats) is Err,
        },
{
    reveal_strlit(".csv");
    reveal_strlit(".tsv");
    reveal_strlit(".ndjson");
    reveal_strlit(".json");
    reveal_strlit(".parquet");
    let csv = ".csv"@;
    let tsv = ".tsv"@;
    let nd = ".ndjson"@;
    let js = ".json"@;
    let pq = ".parquet"@;
    assert(csv[3] == 'v' && tsv[3] == 'v' && nd[6] == 'n' && js[4] == 'n' && pq[7] == 't' && csv[1] == 'c' && tsv[1] == 't'
        && nd[2] == 'd' && js[0] == '.');
    lemma_ending(base, csv, nd, 1);
    lemma_ending(base, csv, js, 1);
    lemma_ending(base, csv, tsv, 3);
    lemma_ending(base, tsv, nd, 1);
    lemma_ending(base, tsv, js, 1);
    lemma_ending(base, nd, csv, 1);
    lemma_ending(base, js, nd, 5);
    lemma_ending(base, pq, nd, 1);
    lemma_ending(base, pq, js, 1);
    lemma_ending(base, pq, tsv, 1);
    lemma_ending(base, pq, csv, 1);
}

/// A file with a JSON value on each line has those values as rows, in their order;
/// blank lines do not count.
pub proof fn json_lines_give_rows_in_order(lines: Seq<Seq<char>>, n: nat, i: int)
    requires
        n <= lines.len(),
        0 <= i < n,
        line_rows(lines.take(n as int)) is Ok,
    ensures
        ({
            let rows = line_rows(lines.take(n as int))->Ok_0;
            let at = how_many(i as nat, |j: int| trimmed(lines[j]).len() > 0) as int;
            &&& rows.len() == how_many(n, |j: int| trimmed(lines[j]).len() > 0)
            &&& trimmed(lines[i]).len() > 0 ==> at < rows.len() && json_parsed(vstd::utf8::encode_utf8(lines[i])) == Ok::<
                Json,
                Seq<char>,
            >(rows[at])
        }),
    decreases n,
{
    let p = |j: int| trimmed(lines[j]).len() > 0;
    let m = (n - 1) as nat;
    assert(how_many(n, p) == how_many(m, p) + if trimmed(lines[n - 1]).len() > 0 {
        1nat
    } else {
        0nat
    });
    assert(how_many(0, p) == 0);
    assert(lines.take(n as int).drop_last() =~= lines.take(m as int));
    assert(lines.take(n as int).last() == lines[n - 1]);
    if m > 0 {
        json_lines_give_rows_in_order(lines, m, if i < m {
            i
        } else {
            0
        });
    } else {
        assert(lines.take(0).len() == 0);
        assert(line_rows(lines.take(0))->Ok_0.len() == 0);
    }
}

/// Values have a kind in common just where all that are there are of that kind.
pub proof fn a_common_kind_is_that_of_all(values: Seq<HostValue>, k: Kind)
    ensures
        k != Kind::Nothing ==> (common_kind(values) == Some(k) <==> (forall|i: int|
            0 <= i < values.len() ==> kind_of(#[trigger] values[i]) == k || kind_of(values[i]) == Kind::Nothing) && exists|
            i: int,
        |
            0 <= i < values.len() && kind_of(#[trigger] values[i]) == k),
        common_kind(values) == Some(Kind::Nothing) <==> forall|i: int|
            0 <= i < values.len() ==> kind_of(#[trigger] values[i]) == Kind::Nothing,
    decreases values.len(),
{
    if values.len() > 0 {
        let rest = values.drop_last();
        let last = values.len() - 1;
        let j = kind_of(values[last]);
        a_common_kind_is_that_of_all(rest, k);
        a_common_kind_is_that_of_all(rest, j);
        assert forall|i: int| 0 <= i < last implies #[trigger] rest[i] == values[i] by {}
        if k != Kind::Nothing {
            if common_kind(values) == Some(k) {
                if common_kind(rest) == Some(k) {
                    let i = choose|i: int| 0 <= i < rest.len() && kind_of(#[trigger] rest[i]) == k;
                    assert(kind_of(values[i]) == k);
                } else {
                    assert(common_kind(rest) == Some(Kind::Nothing));
                    assert(kind_of(values[last]) == k);
                }
                assert forall|i: int| 0 <= i < values.len() implies kind_of(#[trigger] values[i]) == k || kind_of(values[i])
                    == Kind::Nothing by {
                    if i < last {
                        assert(rest[i] == values[i]);
                    }
                }
            }
            if (forall|i: int|
                0 <= i < values.len() ==> kind_of(#[trigger] values[i]) == k || kind_of(values[i]) == Kind::Nothing)
                && exists|i: int| 0 <= i < values.len() && kind_of(#[trigger] values[i]) == k {
                assert forall|i: int| 0 <= i < rest.len() implies kind_of(#[trigger] rest[i]) == k || kind_of(rest[i])
                    == Kind::Nothing by {
                    assert(rest[i] == values[i]);
                }
                assert(kind_of(values[last]) == k || kind_of(values[last]) == Kind::Nothing);
                if exists|i: int| 0 <= i < rest.len() && kind_of(#[trigger] rest[i]) == k {
                    assert(common_kind(rest) == Some(k));
                } else {
                    assert(common_kind(rest) == Some(Kind::Nothing));
                    let i = choose|i: int| 0 <= i < values.len() && kind_of(#[trigger] values[i]) == k;
                    if i < last {
                        assert(kind_of(rest[i]) == k);
                    }
                }
            }
        }
        if common_kind(values) == Some(Kind::Nothing) {
            assert forall|i: int| 0 <= i < values.len() implies kind_of(#[trigger] values[i]) == Kind::Nothing by {
                if i < last {
                    assert(rest[i] == values[i]);
                }
            }
        }
        if forall|i: int| 0 <= i < values.len() ==> kind_of(#[trigger] values[i]) == Kind::Nothing {
            assert forall|i: int| 0 <= i < rest.len() implies kind_of(#[trigger] rest[i]) == Kind::Nothing by {
                assert(rest[i] == values[i]);
            }
            assert(kind_of(values[last]) == Kind::Nothing);
        }
    }
}

/// A column of values of one kind has each value in its place.
pub proof fn columns_have_the_values(values: Seq<HostValue>, i: int)
    requires
        0 <= i < values.len(),
    ensures
        common_kind(values) is Some ==> match (values[i], host_column(values)) {
            (HostValue::Int(v), TypedView::Int64(c)) => c.len() == values.len() && c[i] == v,
            (HostValue::Float(v, _), TypedView::Float64(c)) => c.len() == values.len() && c[i] == v,
            (HostValue::Text(v), TypedView::String(c)) => c.len() == values.len() && c[i] == v@,
            (HostValue::Bytes(v), TypedView::Binary(c)) => c.len() == values.len() && c[i] == v@,
            (HostValue::Bool(_), TypedView::Variant(c)) => c.len() == values.len() && c[i] == crate::json::json_shown(
                host_json(values[i]),
            ),
            (HostValue::Other(_), TypedView::Variant(c)) => c.len() == values.len() && c[i] == crate::json::json_shown(
                host_json(values[i]),
            ),
            (HostValue::Nothing, _) => true,
            _ => false,
        },
        common_kind(values) is None ==> (host_column(values) matches TypedView::Variant(c) && c.len() == values.len() && c[i]
            == crate::json::json_shown(host_json(values[i]))),
        host_json(HostValue::Bool(true)) == Json::Number(Number::Int(1)),
        host_json(HostValue::Bool(false)) == Json::Number(Number::Int(0)),
        values[i] matches HostValue::Int(v) ==> host_json(values[i]) == Json::Number(Number::Int(v)),
        values[i] matches HostValue::Text(v) ==> host_json(values[i]) == Json::String(v@),
        values[i] matches HostValue::Other(v) ==> host_json(values[i]) == v@,
        values[i] is Nothing ==> host_json(values[i]) == Json::Null,
{
    if let Some(k) = common_kind(values) {
        a_common_kind_is_that_of_all(values, k);
        assert(kind_of(values[i]) == k || kind_of(values[i]) == Kind::Nothing);
    }
}

/// Blobs are deleted only where there are dead ones and no dry run was asked for.
pub proof fn dry_runs_delete_nothing(dead: nat, dry_run: bool)
    ensures
        gc_does(dead, dry_run) == GcStep::Vacuum <==> dead > 0 && !dry_run,
        vacuum_does(dead, dry_run) == GcStep::Vacuum <==> dead > 0 && !dry_run,
        gc_does(dead, dry_run) == GcStep::DryRun <==> dead > 0 && dry_run,
        vacuum_does(dead, dry_run) == GcStep::DryRun <==> dry_run,
{
}

/// The format of the output is known by its name, in any case; none is JSON.
pub proof fn formats_are_known_by_name(f: OutputFormat, s: Seq<char>)
    requires
        is_format(f, s),
    ensures
        f is Json <==> ascii_lowered(s) == "json"@ || s.len() == 0,
        f is Table <==> ascii_lowered(s) == "table"@,
{
    reveal_strlit("json");
    reveal_strlit("table");
    reveal_strlit("");
    assert(""@ =~= Seq::<char>::empty());
    let low = ascii_lowered(s);
    assert(low.len() == s.len());
    assert("json"@.len() == 4 && "table"@.len() == 5);
    if s.len() == 0 {
        assert(low =~= ""@);
    }
}

/// A result that is narrowed keeps its columns and their order, and each list the values
/// of the rows that are left.
pub proof fn narrowed_results_keep_their_columns(
    before: Seq<(String, Shown)>,
    after: Seq<(String, Shown)>,
    mask: Seq<bool>,
    c: int,
)
    requires
        narrowed(before, after, mask),
        0 <= c < before.len(),
    ensures
        after.len() == before.len(),
        after[c].0@ == before[c].0@,
        before[c].1 is Single ==> after[c].1 == before[c].1,
        before[c].1 matches Shown::List(a) ==> (after[c].1 matches Shown::List(b) && b@ == masked(a@, mask)),
{
    assert(after[c].0@ == before[c].0@);
}

/// The keys of an index are the names of its entries where all of these are texts.
pub proof fn entries_that_are_texts_have_keys(fields: Seq<(Seq<char>, Json)>, i: int)
    requires
        0 <= i < fields.len(),
    ensures
        !(fields[i].1 is String) ==> keys_of_texts(fields) is None,
        keys_of_texts(fields) matches Some(keys) ==> keys.len() == fields.len() && keys[i] == fields[i].0,
        (forall|k: int| 0 <= k < fields.len() ==> (#[trigger] fields[k]).1 is String) ==> keys_of_texts(fields) is Some,
{
}

/// A predicate is stuck at a row where it has to compare a value that cannot be compared:
/// no predicate before it refuses the row, and its operator is known.
pub proof fn predicates_are_stuck_at_what_they_cannot_compare(
    columns: Seq<(String, Shown)>,
    preds: Seq<ShownPredicate>,
    p: int,
    i: int,
)
    requires
        0 <= p < preds.len(),
    ensures
        stuck(columns, preds, p, i) <==> preds[p].compared@[i] is Never && is_listed(columns, preds[p].column@) && (
        preds[p].op@ == "="@ || preds[p].op@ == "=="@ || preds[p].op@ == "!="@ || preds[p].op@ == "<"@ || preds[p].op@
            == "<="@ || preds[p].op@ == ">"@ || preds[p].op@ == ">="@) && !exists|q: int|
            0 <= q < p && is_listed(columns, (#[trigger] preds[q]).column@) && asked(preds[q].op@, preds[q].compared@[i])
                == Some(false),
{
}

/// A cell of a table shows a text as it is and any other value as JSON; one that is
/// missing is null.
pub proof fn table_cells_show_texts_as_they_are(row: Json, header: Seq<char>, s: Seq<char>, v: Json)
    ensures
        member(row, header) == Some(Json::String(s)) ==> table_cell(row, header) == s,
        member(row, header) == Some(v) && !(v is String) ==> table_cell(row, header) == json_shown(v),
        member(row, header) is None ==> table_cell(row, header) == json_shown(Json::Null),
{
}

/// Bytes are written as marked base64, and a float with its text; one without a text is
/// null.
pub proof fn bytes_and_floats_are_written_as_json(v: HostValue)
    ensures
        v matches HostValue::Bytes(b) ==> host_json(v) == Json::String("__bin_b64__:"@ + crate::media::base64_text(b@)),
        v matches HostValue::Float(bits, Some(t)) ==> host_json(v) == Json::Number(Number::Float(bits, t@)),
        v matches HostValue::Float(_, None) ==> host_json(v) == Json::Null,
{
}

} // verus!
