//! Names with a meaning of their own, and what stands under names.

use vstd::prelude::*;
use vstd::string::*;
use vstd::utf8::encode_utf8;
use crate::change::{base_name, never_selected, selects, upsert_key};
use crate::index::{cell_parts, key_part, keys_of_row, number_text, row_parts, u64_of};
use crate::infer::{cell_of, column_masked, masked, typed_columns, CellExtra};
use crate::json::{json_parsed, json_shown, key_at, lemma_key_at, lookup, member, put, put_then_lookup, Json, Number};
use crate::merge::{is_meta, rowid_of};
use crate::names::{endpoint_of, provider_of, s3_description};
use crate::parser::{stat_end, stat_len};
use crate::plan::rowid_or_empty;
use crate::query::is_hidden;
use crate::report::type_word;
use crate::rows::{id_text, own_id, rowid_for, shown_cell, shown_text, stored_cell, CellExtras};
use crate::search::{is_stop_word, is_token};
use crate::store_laws::extensions_stand_after_the_last_dot;
use crate::table::{is_reserved, table_columns, with_column, CellsView};
use crate::text::{decimal, decimal_int, ends_with, starts_with};
use crate::typed::TypedColumn;
use crate::types::ColumnView;
use crate::upload::{hex_len, pow16};
use crate::write::{columns_to_write, fields_at};

verus! {

/// The store's own columns: ids, versions and marks of deletion are not data; the tenant
/// is not shown either; a table keeps two names for its counts.
pub proof fn own_columns_have_names(name: Seq<char>)
    ensures
        is_meta(name) <==> name == "_rowid"@ || name == "_version"@ || name == "_deleted"@,
        is_hidden(name) <==> is_meta(name) || name == "_tenant"@,
        is_reserved(name) <==> name == "_n_rows"@ || name == "_n_columns"@,
        never_selected(name) <==> is_hidden(base_name(name)) || starts_with(base_name(name), "_udf_marker_"@),
{
}

/// A column is selected by its name, by its name after a table's, and by the name that
/// stands after a table's in it.
pub proof fn columns_are_selected_by_name(table: Seq<char>, name: Seq<char>, other: Seq<char>)
    requires
        !name.contains('.'),
    ensures
        selects(name, name),
        selects(table.push('.') + name, name),
        selects(name, table.push('.') + name),
        !other.contains('.') && other != name ==> !selects(other, name) && !selects(table.push('.') + other, name),
{
    extensions_stand_after_the_last_dot(table, name);
    let full = table.push('.') + name;
    let tail = seq!['.'] + name;
    assert(full.subrange(full.len() - tail.len(), full.len() as int) =~= tail);
    if !other.contains('.') && other != name {
        extensions_stand_after_the_last_dot(table, other);
        let long = table.push('.') + other;
        if ends_with(name, seq!['.'] + other) {
            let t = seq!['.'] + other;
            assert(name.subrange(name.len() - t.len(), name.len() as int)[0] == '.');
            assert(name[name.len() - t.len()] == '.');
        }
        if ends_with(name, seq!['.'] + long) {
            let t = seq!['.'] + long;
            assert(name.subrange(name.len() - t.len(), name.len() as int)[0] == '.');
            assert(name[name.len() - t.len()] == '.');
        }
        if long == name {
            assert(long[table.len() as int] == '.');
        }
    }
}

/// A row is written under its id, else under its key on the source side, else under its
/// key on the target side.
pub proof fn rows_are_written_under_their_keys(row: Json, target: Seq<char>, source: Seq<char>, id: Seq<char>, v: Json)
    ensures
        rowid_of(row) == Some(id) ==> upsert_key(row, target, source) == id,
        rowid_of(row) is None && member(row, source) == Some(v) ==> upsert_key(row, target, source) == json_shown(v),
        rowid_of(row) is None && member(row, source) is None && member(row, target) == Some(v) ==> upsert_key(
            row,
            target,
            source,
        ) == json_shown(v),
        member(row, "_rowid"@) is None && member(row, source) is None && member(row, target) is None ==> upsert_key(
            row,
            target,
            source,
        ).len() == 0,
{
}

/// The columns that may name a row, from the first: the first that holds a text or a
/// whole number does.
pub proof fn ids_are_looked_for_in_order(row: Json, key_fields: Seq<Seq<char>>, cols: Seq<Seq<char>>, k: int)
    requires
        cols == (if key_fields.len() > 0 {
            seq!["_rowid"@, key_fields[0], "_key"@, "id"@, "key"@]
        } else {
            seq!["_rowid"@, "_key"@, "id"@, "key"@]
        }),
        0 <= k < cols.len(),
        id_text(member(row, cols[k])) is Some,
        forall|j: int| 0 <= j < k ==> id_text(member(row, #[trigger] cols[j])) is None,
    ensures
        own_id(row, key_fields) == id_text(member(row, cols[k])),
        rowid_for(row, key_fields) == id_text(member(row, cols[k]))->0,
{
    if k > 0 {
        assert(id_text(member(row, cols[0])) is None);
    }
    if k > 1 {
        assert(id_text(member(row, cols[1])) is None);
    }
    if k > 2 {
        assert(id_text(member(row, cols[2])) is None);
    }
    if k > 3 {
        assert(id_text(member(row, cols[3])) is None);
    }
}

/// A field that is set keeps its place; a new one comes last.
pub proof fn fields_keep_their_places(fields: Seq<(Seq<char>, Json)>, key: Seq<char>, v: Json, i: int)
    requires
        0 <= i < fields.len(),
    ensures
        put(fields, key, v)[i].0 == fields[i].0,
        fields[i].0 != key ==> put(fields, key, v)[i] == fields[i],
        lookup(fields, key) is Some ==> put(fields, key, v).len() == fields.len(),
        lookup(fields, key) is None ==> put(fields, key, v) == fields.push((key, v)),
{
    lemma_key_at(fields, key);
}

/// A table has no column under the names of its counts.
pub proof fn counts_are_no_columns(cols: Seq<ColumnView>, projection: Option<Seq<Seq<char>>>, mask: Seq<bool>, at: int)
    requires
        0 <= at < table_columns(cols, projection, mask).len(),
    ensures
        table_columns(cols, projection, mask)[at].0 != "_n_rows"@,
        table_columns(cols, projection, mask)[at].0 != "_n_columns"@,
    decreases cols.len(),
{
    let rest = cols.drop_last();
    let prev = table_columns(rest, projection, mask);
    let name = crate::rows::shown_text(cols.last().name);
    if !is_reserved(name) && (projection is None || projection->0.contains(name)) {
        let cells = crate::table::cells_of(cols.last(), mask);
        lemma_with_column_at(prev, name, cells, at);
        if with_column(prev, name, cells)[at].0 != name {
            counts_are_no_columns(rest, projection, mask, at);
        }
    } else {
        counts_are_no_columns(rest, projection, mask, at);
    }
}

proof fn lemma_with_column_at(cols: Seq<(Seq<char>, CellsView)>, name: Seq<char>, cells: CellsView, at: int)
    requires
        0 <= at < with_column(cols, name, cells).len(),
    ensures
        with_column(cols, name, cells)[at].0 == name || (at < cols.len() && with_column(cols, name, cells)[at] == cols[at]),
    decreases cols.len(),
{
    if cols.len() > 0 && cols[0].0 != name && at > 0 {
        lemma_with_column_at(cols.drop_first(), name, cells, at - 1);
    }
}

/// The parts of a composite key are those of its fields, in order, with a separator
/// between them.
pub proof fn composite_keys_join_their_parts(row: Json, a: Seq<char>, b: Seq<char>, x: Seq<char>, y: Seq<char>)
    ensures
        member(row, a) == Some(Json::String(x)) && member(row, b) == Some(Json::String(y)) ==> keys_of_row(row, seq![a, b])
            == seq![x + seq!['\u{1f}'] + y],
        member(row, a) == Some(Json::String(x)) && member(row, b) is None ==> keys_of_row(row, seq![a, b]) == seq![x],
        member(row, a) is None && member(row, b) == Some(Json::String(y)) ==> keys_of_row(row, seq![a, b]) == seq![y],
{
    let none = Seq::<Seq<char>>::empty();
    let two = seq![a, b];
    assert(two.drop_last() =~= seq![a]);
    assert(seq![a].drop_last() =~= Seq::<Seq<char>>::empty());
    assert(row_parts(row, seq![a].drop_last()) =~= none);
    assert(row_parts(row, seq![a]) =~= cell_parts(member(row, a)));
    assert(row_parts(row, two) == cell_parts(member(row, a)) + cell_parts(member(row, b)));
    let sep = seq!['\u{1f}'];
    let parts = seq![x, y];
    assert(parts.drop_last() =~= seq![x]);
    assert(crate::index::joined_by(seq![x], sep) == x);
    assert(crate::index::joined_by(parts, sep) == x + sep + y);
    if member(row, a) == Some(Json::String(x)) && member(row, b) == Some(Json::String(y)) {
        assert(row_parts(row, two) =~= parts);
    } else if member(row, a) == Some(Json::String(x)) && member(row, b) is None {
        assert(row_parts(row, two) =~= seq![x]);
    } else if member(row, a) is None && member(row, b) == Some(Json::String(y)) {
        assert(row_parts(row, two) =~= seq![y]);
    }
}

/// A number that is whole and not negative can be a setting.
pub proof fn settings_are_not_negative(x: i64, y: u64, f: u64, t: Seq<char>)
    ensures
        u64_of(Json::Number(Number::Int(x))) is Some <==> x >= 0,
        u64_of(Json::Number(Number::Int(x))) matches Some(v) ==> v == x,
        u64_of(Json::Number(Number::UInt(y))) == Some(y),
        u64_of(Json::Number(Number::Float(f, t))) is None && u64_of(Json::String(t)) is None,
{
}

/// The words that are too common to be searched for, and single characters, are no
/// tokens; every other word is one.
pub proof fn common_words_are_no_tokens(w: Seq<char>)
    ensures
        is_token(w) <==> w.len() >= 2 && !is_stop_word(w),
        w == "a"@ || w == "an"@ || w == "and"@ || w == "are"@ || w == "as"@ || w == "at"@ || w == "be"@ || w == "but"@ || w
            == "by"@ || w == "for"@ || w == "from"@ || w == "has"@ || w == "have"@ || w == "he"@ || w == "in"@ || w == "is"@
            || w == "it"@ || w == "its"@ || w == "of"@ || w == "on"@ || w == "or"@ || w == "that"@ || w == "the"@ || w
            == "this"@ || w == "to"@ || w == "was"@ || w == "were"@ || w == "will"@ || w == "with"@ ==> !is_token(w),
        w == "i"@ || w == "you"@ || w == "we"@ || w == "they"@ || w == "them"@ || w == "his"@ || w == "her"@ || w == "she"@
            || w == "him"@ || w == "not"@ || w == "no"@ || w == "do"@ || w == "does"@ || w == "did"@ || w == "had"@ || w
            == "been"@ || w == "being"@ || w == "am"@ || w == "if"@ || w == "then"@ || w == "else"@ || w == "when"@ || w
            == "where"@ || w == "which"@ || w == "who"@ || w == "whom"@ || w == "what"@ || w == "why"@ || w == "how"@
            ==> !is_token(w),
        w == "all"@ || w == "any"@ || w == "each"@ || w == "few"@ || w == "more"@ || w == "most"@ || w == "other"@ || w
            == "some"@ || w == "such"@ || w == "only"@ || w == "own"@ || w == "same"@ || w == "so"@ || w == "than"@ || w
            == "too"@ || w == "very"@ || w == "can"@ || w == "just"@ || w == "should"@ || w == "now"@ ==> !is_token(w),
        w.len() > 6 ==> is_token(w),
{
    if w.len() > 6 {
        lemma_stop_words_are_short(w);
    }
}

proof fn lemma_stop_words_are_short(w: Seq<char>)
    ensures
        is_stop_word(w) ==> w.len() <= 6,
{
    reveal_strlit("a");
    reveal_strlit("an");
    reveal_strlit("and");
    reveal_strlit("are");
    reveal_strlit("as");
    reveal_strlit("at");
    reveal_strlit("be");
    reveal_strlit("but");
    reveal_strlit("by");
    reveal_strlit("for");
    reveal_strlit("from");
    reveal_strlit("has");
    reveal_strlit("have");
    reveal_strlit("he");
    reveal_strlit("in");
    reveal_strlit("is");
    reveal_strlit("it");
    reveal_strlit("its");
    reveal_strlit("of");
    reveal_strlit("on");
    reveal_strlit("or");
    reveal_strlit("that");
    reveal_strlit("the");
    reveal_strlit("this");
    reveal_strlit("to");
    reveal_strlit("was");
    reveal_strlit("were");
    reveal_strlit("will");
    reveal_strlit("with");
    reveal_strlit("i");
    reveal_strlit("you");
    reveal_strlit("we");
    reveal_strlit("they");
    reveal_strlit("them");
    reveal_strlit("his");
    reveal_strlit("her");
    reveal_strlit("she");
    reveal_strlit("him");
    reveal_strlit("not");
    reveal_strlit("no");
    reveal_strlit("do");
    reveal_strlit("does");
    reveal_strlit("did");
    reveal_strlit("had");
    reveal_strlit("been");
    reveal_strlit("being");
    reveal_strlit("am");
    reveal_strlit("if");
    reveal_strlit("then");
    reveal_strlit("else");
    reveal_strlit("when");
    reveal_strlit("where");
    reveal_strlit("which");
    reveal_strlit("who");
    reveal_strlit("whom");
    reveal_strlit("what");
    reveal_strlit("why");
    reveal_strlit("how");
    reveal_strlit("all");
    reveal_strlit("any");
    reveal_strlit("each");
    reveal_strlit("few");
    reveal_strlit("more");
    reveal_strlit("most");
    reveal_strlit("other");
    reveal_strlit("some");
    reveal_strlit("such");
    reveal_strlit("only");
    reveal_strlit("own");
    reveal_strlit("same");
    reveal_strlit("so");
    reveal_strlit("than");
    reveal_strlit("too");
    reveal_strlit("very");
    reveal_strlit("can");
    reveal_strlit("just");
    reveal_strlit("should");
    reveal_strlit("now");
}

/// An address in a bucket is shown with its provider, its bucket and its path.
pub proof fn addresses_are_shown_with_their_bucket(bucket: Seq<char>, path: Seq<char>)
    requires
        !bucket.contains('/'),
    ensures
        ({
            let url = "s3://"@ + bucket + "/"@ + path;
            s3_description(url) == provider_of(endpoint_of(url)) + " ("@ + bucket + ": s3://"@ + bucket + "/"@ + ("/"@ + path)
                + ")"@
        }),
{
    reveal_strlit("s3://");
    reveal_strlit("/");
    let url = "s3://"@ + bucket + "/"@ + path;
    let rest = url.skip(5);
    assert(rest =~= bucket + "/"@ + path);
    crate::text_laws::lemma_first_slash(bucket, path);
    assert(rest.subrange(bucket.len() as int, rest.len() as int) =~= "/"@ + path);
}

/// The types of columns have names.
pub proof fn types_have_names(t: u8)
    ensures
        type_word(1) == "INT64"@ && type_word(2) == "FLOAT64"@ && type_word(3) == "STRING"@ && type_word(7) == "BOOLEAN"@,
        t != 1 && t != 2 && t != 3 && t != 7 ==> type_word(t) == "OTHER"@,
{
}

/// A value of a column is shown by its type; beyond the last row there is none.
pub proof fn cells_are_shown_by_type(col: TypedColumn, i: int, extra: CellExtra)
    requires
        0 <= i,
    ensures
        i >= col.len_spec() ==> cell_of(col, i, extra) == Json::Null,
        i < col.len_spec() ==> match col {
            TypedColumn::Int64(v) => cell_of(col, i, extra) == Json::Number(Number::Int(v@[i])),
            TypedColumn::Date(v) => cell_of(col, i, extra) == Json::Number(Number::Int(v@[i])),
            TypedColumn::Timestamp(v) => cell_of(col, i, extra) == Json::Number(Number::Int(v@[i])),
            TypedColumn::String(v) => cell_of(col, i, extra) == Json::String(v@[i]@),
            TypedColumn::Boolean(v) => cell_of(col, i, extra) == Json::Bool(v@[i]),
            TypedColumn::Binary(v) => cell_of(col, i, extra) == Json::String("<"@ + decimal(v@[i]@.len()) + " bytes>"@),
            TypedColumn::Float64(v) => match extra.float_text {
                Some(t) => cell_of(col, i, extra) == Json::Number(Number::Float(v@[i], t@)),
                None => cell_of(col, i, extra) == Json::Null,
            },
            TypedColumn::Vector(_) => cell_of(col, i, extra) is Array,
            TypedColumn::Variant(_) => true,
        },
{
}

/// The number of the last column below `n` of a name.
pub open spec fn last_column(cols: Seq<(String, TypedColumn)>, name: Seq<char>, n: nat) -> Option<int>
    decreases n,
{
    if n == 0 {
        None
    } else if cols[n - 1].0@ == name {
        Some(n - 1)
    } else {
        last_column(cols, name, (n - 1) as nat)
    }
}

/// A row of columns has under each name the cell of the last column of that name.
pub proof fn rows_have_the_cells_of_the_last_columns(
    cols: Seq<(String, TypedColumn)>,
    extras: Seq<CellExtra>,
    i: int,
    n: nat,
    name: Seq<char>,
)
    requires
        n <= cols.len(),
    ensures
        lookup(fields_at(cols, extras, i, n), name) == (match last_column(cols, name, n) {
            Some(c) => Some(cell_of(cols[c].1, i, extras[c])),
            None => None,
        }),
    decreases n,
{
    if n > 0 {
        rows_have_the_cells_of_the_last_columns(cols, extras, i, (n - 1) as nat, name);
        put_then_lookup(
            fields_at(cols, extras, i, (n - 1) as nat),
            cols[n - 1].0@,
            cell_of(cols[n - 1].1, i, extras[n - 1]),
            name,
        );
    }
}

/// A masked column is of the same type and has the values that the mask keeps.
pub proof fn masked_columns_keep_their_type(col: TypedColumn, r: TypedColumn, mask: Seq<bool>)
    requires
        column_masked(col, r, mask),
    ensures
        col.vtype_spec() == r.vtype_spec(),
        col matches TypedColumn::Int64(v) ==> (r matches TypedColumn::Int64(w) && w@ == masked(v@, mask)),
        col matches TypedColumn::Float64(v) ==> (r matches TypedColumn::Float64(w) && w@ == masked(v@, mask)),
        col matches TypedColumn::String(v) ==> (r matches TypedColumn::String(w) && w@ == masked(v@, mask)),
        col matches TypedColumn::Boolean(v) ==> (r matches TypedColumn::Boolean(w) && w@ == masked(v@, mask)),
        col matches TypedColumn::Binary(v) ==> (r matches TypedColumn::Binary(w) && w@ == masked(v@, mask)),
{
}

/// Rows can be written where there is a row and a column.
pub proof fn rows_with_columns_are_written(rows: Seq<Json>)
    ensures
        match columns_to_write(rows) {
            Ok(cols) => rows.len() > 0 && cols == typed_columns(rows) && cols.len() > 0,
            Err(_) => rows.len() == 0 || typed_columns(rows).len() == 0,
        },
{
}

/// Only numbers and what is stored as a number have bounds, of eight bytes each.
pub proof fn bounds_have_eight_bytes(vtype: u8, len: int, pos: int)
    requires
        0 <= pos <= len,
    ensures
        stat_len(vtype) == (if vtype == 1 || vtype == 2 || vtype == 7 || vtype == 8 || vtype == 9 {
            8int
        } else {
            0int
        }),
        pos + stat_len(vtype) <= len ==> stat_end(len, pos, vtype) == pos + stat_len(vtype),
        pos + stat_len(vtype) > len ==> stat_end(len, pos, vtype) == len,
{
}

/// A number has just as many hexadecimal digits as it takes.
pub proof fn hexadecimal_lengths_are_least(v: nat)
    ensures
        v < pow16(hex_len(v)),
        v > 0 ==> pow16((hex_len(v) - 1) as nat) <= v,
    decreases v,
{
    if v >= 16 {
        hexadecimal_lengths_are_least(v / 16);
    } else {
        assert(pow16(0) == 1);
        assert(pow16(1) == 16 * pow16(0));
    }
}

/// A float is read with its text where it has one, and any other type than the basic ones
/// as the JSON value that its text is; such are not shown.
pub proof fn stored_values_are_read_by_type(col: ColumnView, e: CellExtras, extras: Option<CellExtras>, i: int)
    requires
        0 <= i,
    ensures
        col.vtype == 2 && i < col.floats.len() && i < e.float_texts@.len() ==> (match e.float_texts@[i] {
            Some(t) => stored_cell(col, Some(e), i) == Json::Number(Number::Float(col.floats[i], t@)),
            None => stored_cell(col, Some(e), i) == Json::Null,
        }),
        col.vtype == 6 && i < col.strs.len() ==> (match json_parsed(encode_utf8(shown_text(col.strs[i]))) {
            Ok(v) => stored_cell(col, extras, i) == v,
            Err(_) => stored_cell(col, extras, i) == Json::Null,
        }),
        col.vtype == 5 || col.vtype == 6 ==> shown_cell(col, extras, i) == Json::Null,
{
}

/// The id of a row is the text under `_rowid`.
pub proof fn ids_are_texts(row: Json, s: Seq<char>)
    ensures
        rowid_of(row) == Some(s) <==> member(row, "_rowid"@) == Some(Json::String(s)),
        rowid_or_empty(row) == (match member(row, "_rowid"@) {
            Some(Json::String(id)) => id,
            _ => Seq::empty(),
        }),
{
}

/// What stands under a name is what the first field of that name holds.
pub proof fn the_first_field_of_a_name_counts(fields: Seq<(Seq<char>, Json)>, key: Seq<char>)
    ensures
        match lookup(fields, key) {
            Some(v) => exists|i: int|
                0 <= i < fields.len() && (#[trigger] fields[i]).0 == key && fields[i].1 == v && forall|j: int|
                    0 <= j < i ==> (#[trigger] fields[j]).0 != key,
            None => forall|j: int| 0 <= j < fields.len() ==> (#[trigger] fields[j]).0 != key,
        },
        member(Json::Object(fields), key) == lookup(fields, key),
    decreases fields.len(),
{
    lemma_first_field(fields, key);
}

proof fn lemma_first_field(fields: Seq<(Seq<char>, Json)>, key: Seq<char>)
    ensures
        match key_at(fields, key) {
            Some(i) => 0 <= i < fields.len() && fields[i].0 == key && forall|j: int|
                0 <= j < i ==> (#[trigger] fields[j]).0 != key,
            None => forall|j: int| 0 <= j < fields.len() ==> (#[trigger] fields[j]).0 != key,
        },
    decreases fields.len(),
{
    if fields.len() > 0 {
        let rest = fields.drop_last();
        lemma_first_field(rest, key);
        assert forall|j: int| 0 <= j < rest.len() implies rest[j] == #[trigger] fields[j] by {}
    }
}

/// A number stands in a key as it is written.
pub proof fn numbers_in_keys_are_written_out(x: i64, y: u64, f: u64, t: Seq<char>)
    ensures
        number_text(Number::Int(x)) == decimal_int(x as int),
        number_text(Number::UInt(y)) == decimal(y as nat),
        number_text(Number::Float(f, t)) == t,
        key_part(Json::Number(Number::Int(x))) == Some(decimal_int(x as int)),
        key_part(Json::String(t)) == Some(t),
        key_part(Json::Null) is None && key_part(Json::Bool(true)) is None && key_part(Json::Bool(false)) is None,
{
}

} // verus!
