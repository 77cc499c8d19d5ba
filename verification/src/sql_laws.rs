//! What the SQL texts of conditions and statements say.

use vstd::prelude::*;
use vstd::string::*;
use crate::change::insert_columns_of;
use crate::index::joined_by;
use crate::json::{field_views, json_views, Json, JsonValue, Number};
use crate::sql::{assigned, is_plan, prepared, MergeAction, SqlStatement, StatementPlan};
use crate::sql_text::{sql_literal, sql_literals, sql_of, WhereExpr};
use crate::text::{ascii_lowered, decimal_int, first_at, starts_with, text_views, trim_start};
use crate::udf::{call_args, call_at, call_head, calls_of, closing_at, extracted, is_word_char, marker, one_call, Call};
use crate::where_clause::count_of;

verus! {

/// A condition that asks for the opposite has the same text with a NOT in it: after the
/// column for IN and LIKE, within the words for IS NULL. Without it there is none.
pub proof fn negation_puts_a_not_after_the_column(
    col: String,
    values: Vec<JsonValue>,
    pattern: String,
    query: String,
)
    ensures
        ({
            let list = joined_by(sql_literals(json_views(values@)), ", "@);
            let isin = |negate: bool| sql_of(WhereExpr::In { col, values, negate });
            let like = |negate: bool| sql_of(WhereExpr::Like { col, pattern, negate });
            let null = |negate: bool| sql_of(WhereExpr::IsNull { col, negate });
            let among = |negate: bool| sql_of(WhereExpr::Subquery { col, query, negate });
            &&& isin(false) == col@ + " IN ("@ + list + ")"@
            &&& isin(true) == col@ + " NOT"@ + " IN ("@ + list + ")"@
            &&& like(false) == col@ + " LIKE '"@ + pattern@ + "'"@
            &&& like(true) == col@ + " NOT"@ + " LIKE '"@ + pattern@ + "'"@
            &&& null(false) == col@ + " IS"@ + " NULL"@
            &&& null(true) == col@ + " IS"@ + " NOT"@ + " NULL"@
            &&& among(false) == col@ + " IN ("@ + query@ + ")"@
            &&& among(true) == col@ + " NOT"@ + " IN ("@ + query@ + ")"@
            &&& isin(false) != isin(true)
            &&& like(false) != like(true)
            &&& null(false) != null(true)
            &&& among(false) != among(true)
        }),
{
    reveal_strlit(" NOT");
    reveal_strlit(" IN (");
    reveal_strlit(" NOT IN (");
    reveal_strlit(" LIKE '");
    reveal_strlit(" NOT LIKE '");
    reveal_strlit(" IS");
    reveal_strlit(" NULL");
    reveal_strlit(" IS NULL");
    reveal_strlit(" IS NOT NULL");
    assert(" NOT"@ + " IN ("@ =~= " NOT IN ("@);
    assert(" NOT"@ + " LIKE '"@ =~= " NOT LIKE '"@);
    assert(" IS"@ + " NULL"@ =~= " IS NULL"@);
    assert(" IS"@ + " NOT"@ + " NULL"@ =~= " IS NOT NULL"@);
    let list = joined_by(sql_literals(json_views(values@)), ", "@);
    let a = sql_of(WhereExpr::In { col, values, negate: false });
    let b = sql_of(WhereExpr::In { col, values, negate: true });
    assert(b =~= col@ + " NOT"@ + " IN ("@ + list + ")"@);
    assert(a.len() != b.len());
    let c = sql_of(WhereExpr::Like { col, pattern, negate: false });
    let d = sql_of(WhereExpr::Like { col, pattern, negate: true });
    assert(d =~= col@ + " NOT"@ + " LIKE '"@ + pattern@ + "'"@);
    assert(c.len() != d.len());
    let e = sql_of(WhereExpr::IsNull { col, negate: false });
    let f = sql_of(WhereExpr::IsNull { col, negate: true });
    assert(e =~= col@ + " IS"@ + " NULL"@);
    assert(f =~= col@ + " IS"@ + " NOT"@ + " NULL"@);
    assert(e.len() != f.len());
    let g = sql_of(WhereExpr::Subquery { col, query, negate: false });
    let h = sql_of(WhereExpr::Subquery { col, query, negate: true });
    assert(h =~= col@ + " NOT"@ + " IN ("@ + query@ + ")"@);
    assert(g.len() != h.len());
}

/// Conditions that are joined stand in brackets with their word between them, and the
/// words differ; a condition that is turned round stands in brackets after a NOT; a
/// comparison has its operator between the column and the value; and no condition is no
/// text.
pub proof fn conditions_keep_their_words(a: WhereExpr, b: WhereExpr, col: String, op: String, value: JsonValue)
    ensures
        ({
            let both = sql_of(WhereExpr::And(Box::new(a), Box::new(b)));
            let either = sql_of(WhereExpr::Or(Box::new(a), Box::new(b)));
            let not = sql_of(WhereExpr::Not(Box::new(a)));
            &&& both == "("@ + sql_of(a) + " AND "@ + sql_of(b) + ")"@
            &&& either == "("@ + sql_of(a) + " OR "@ + sql_of(b) + ")"@
            &&& both != either
            &&& not == "NOT "@ + "("@ + sql_of(a) + ")"@
            &&& sql_of(WhereExpr::Compare { col, op, value }) == col@ + " "@ + op@ + " "@ + sql_literal(value@)
            &&& sql_of(WhereExpr::True).len() == 0
        }),
{
    reveal_strlit("(");
    reveal_strlit("NOT ");
    reveal_strlit("NOT (");
    reveal_strlit(" AND ");
    reveal_strlit(" OR ");
    reveal_strlit("");
    assert("NOT "@ + "("@ =~= "NOT ("@);
    let both = sql_of(WhereExpr::And(Box::new(a), Box::new(b)));
    let either = sql_of(WhereExpr::Or(Box::new(a), Box::new(b)));
    assert(both.len() != either.len());
    let not = sql_of(WhereExpr::Not(Box::new(a)));
    assert(not =~= "NOT "@ + "("@ + sql_of(a) + ")"@);
}

/// A literal says its value: a text stands in single quotes, a whole number in decimal
/// digits, and no two whole numbers, booleans or texts have one literal; the null is the
/// word for it.
pub proof fn literals_say_their_values(s: Seq<char>, t: Seq<char>, x: i64, y: i64)
    ensures
        sql_literal(Json::String(s)) == seq!['\''] + s + seq!['\''],
        sql_literal(Json::String(s)) == sql_literal(Json::String(t)) <==> s == t,
        sql_literal(Json::Number(Number::Int(x))) == decimal_int(x as int),
        sql_literal(Json::Number(Number::Int(x))) == sql_literal(Json::Number(Number::Int(y))) <==> x == y,
        sql_literal(Json::Bool(true)) == "true"@,
        sql_literal(Json::Bool(false)) == "false"@,
        sql_literal(Json::Bool(true)) != sql_literal(Json::Bool(false)),
        sql_literal(Json::Null) == "NULL"@,
{
    reveal_strlit("'");
    reveal_strlit("true");
    reveal_strlit("false");
    assert("true"@.len() != "false"@.len());
    assert("'"@ =~= seq!['\'']);
    let a = sql_literal(Json::String(s));
    let b = sql_literal(Json::String(t));
    assert(a.subrange(1, a.len() - 1) =~= s);
    assert(b.subrange(1, b.len() - 1) =~= t);
    crate::text_laws::numbers_read_back(x);
    crate::text_laws::numbers_read_back(y);
}

/// The list of an IN has a literal for each of its values, in order.
pub proof fn lists_have_their_values(values: Seq<Json>, i: int)
    requires
        0 <= i < values.len(),
    ensures
        sql_literals(values).len() == values.len(),
        sql_literals(values)[i] == sql_literal(values[i]),
{
}

/// A statement is planned as what it is, on its own collection, and under the text of
/// its own condition.
pub proof fn statements_are_planned_as_they_are(p: StatementPlan, s: SqlStatement)
    requires
        is_plan(p, s),
    ensures
        match s {
            SqlStatement::Update { collection, sets, condition } => p matches StatementPlan::Update {
                collection: c,
                updates,
                condition: text,
            } && c@ == collection@ && text@ == sql_of(condition) && field_views(updates@) == assigned(
                field_views(sets@),
            ),
            SqlStatement::Delete { collection, condition } => p matches StatementPlan::Delete {
                collection: c,
                condition: text,
            } && c@ == collection@ && text@ == sql_of(condition),
            SqlStatement::Insert { collection, columns, rows } => p matches StatementPlan::Insert {
                collection: c,
                columns: lists,
            } && c@ == collection@ && crate::change::list_views(lists@) == insert_columns_of(
                text_views(columns@),
                rows@,
            ),
            SqlStatement::Merge { target, match_keys, when_matched, when_not_matched } => p matches StatementPlan::Merge {
                target: t,
                key_col,
                on_match,
                on_miss,
            } && t@ == target@ && (match_keys@.len() > 0 ==> (key_col matches Some(k) && k@ == match_keys@[0].0@))
                && on_match@ == (match when_matched {
                MergeAction::Delete => "delete"@,
                MergeAction::Skip => "skip"@,
                MergeAction::Update => "update"@,
                MergeAction::Insert => "update"@,
            }) && on_miss@ == (match when_not_matched {
                MergeAction::Skip => "skip"@,
                MergeAction::Insert => "insert"@,
                MergeAction::Update => "insert"@,
                MergeAction::Delete => "insert"@,
            }),
        },
{
}

/// Functions are called only in a SELECT, in any case and after any white space.
pub proof fn only_selects_call_functions(sql: Seq<char>, names: Seq<Seq<char>>)
    ensures
        !starts_with(ascii_lowered(trim_start(sql)), "select"@) || names.len() == 0 ==> prepared(sql, names) == (
            sql,
            Seq::<Call>::empty(),
        ),
        starts_with(ascii_lowered(trim_start(sql)), "select"@) && names.len() > 0 ==> prepared(sql, names) == extracted(
            sql,
            names,
        ),
{
}

/// A call is replaced by its mark: what stands before the name and after the closing
/// bracket stays, and the name is not part of a longer one.
pub proof fn calls_are_replaced_by_marks(s: Seq<char>, name: Seq<char>, k: nat)
    ensures
        one_call(s, name, k) matches Some((next, args)) ==> exists|p: int, e: int|
            0 <= p && p + name.len() < e < s.len() && #[trigger] s.subrange(p, e + 1) == name + seq!['('] + s.subrange(
                p + name.len() + 1,
                e,
            ) + seq![')'] && (p == 0 || !is_word_char(s[p - 1])) && next == s.subrange(0, p) + "_udf_marker_"@
                + crate::text::decimal(k) + " = 1"@ + s.subrange(e + 1, s.len() as int) && args == call_args(
                crate::text::split(s.subrange(p + name.len() + 1, e), ','),
            ),
{
    if let Some((next, args)) = one_call(s, name, k) {
        let head = call_head(name);
        let p = call_at(s, head, 0)->0;
        lemma_call_at(s, head, 0);
        let from = (p + head.len()) as int;
        lemma_closing(s, from, 1);
        let e = closing_at(s, from, 1)->0;
        let inner = s.subrange(from, e);
        let whole = s.subrange(p, e + 1);
        assert(s.subrange(p, p + head.len()) == head);
        assert(whole =~= name + seq!['('] + inner + seq![')']) by {
            assert forall|i: int| 0 <= i < head.len() implies whole[i] == head[i] by {
                assert(s.subrange(p, p + head.len())[i] == s[p + i]);
            }
        }
        assert(next =~= s.subrange(0, p) + "_udf_marker_"@ + crate::text::decimal(k) + " = 1"@ + s.subrange(
            e + 1,
            s.len() as int,
        ));
    }
}

proof fn lemma_call_at(s: Seq<char>, head: Seq<char>, from: int)
    requires
        0 <= from,
    ensures
        call_at(s, head, from) matches Some(p) ==> from <= p && p + head.len() <= s.len() && s.subrange(
            p,
            p + head.len(),
        ) == head && (p == 0 || !is_word_char(s[p - 1])),
    decreases s.len() - from,
{
    crate::text_laws::lemma_first_at(s, head, from);
    match crate::text::first_at(s, head, from) {
        Some(p) if from <= p && p + head.len() <= s.len() && head.len() > 0 => {
            if !(p == 0 || !is_word_char(s[p - 1])) {
                lemma_call_at(s, head, (p + head.len()) as int);
            }
        },
        _ => {},
    }
}

proof fn lemma_closing(s: Seq<char>, i: int, depth: int)
    requires
        0 <= i,
        depth > 0,
    ensures
        closing_at(s, i, depth) matches Some(e) ==> i <= e < s.len() && s[e] == ')',
    decreases s.len() - i,
{
    if i < s.len() {
        let d = if s[i] == '(' {
            depth + 1
        } else if s[i] == ')' {
            depth - 1
        } else {
            depth
        };
        if d != 0 {
            lemma_closing(s, i + 1, d);
        }
    }
}

/// The arguments of a call are trimmed and not empty, and every part between commas that
/// is not blank is one.
pub proof fn arguments_are_the_parts(parts: Seq<Seq<char>>, x: Seq<char>)
    ensures
        call_args(parts).contains(x) <==> x.len() > 0 && exists|i: int|
            0 <= i < parts.len() && crate::text::trimmed(#[trigger] parts[i]) == x,
    decreases parts.len(),
{
    if parts.len() > 0 {
        let rest = parts.drop_last();
        arguments_are_the_parts(rest, x);
        let a = crate::text::trimmed(parts.last());
        crate::merge_laws::lemma_push_contains(call_args(rest), a, x);
        assert(parts[parts.len() - 1] == parts.last());
        if exists|i: int| 0 <= i < rest.len() && crate::text::trimmed(#[trigger] rest[i]) == x {
            let i = choose|i: int| 0 <= i < rest.len() && crate::text::trimmed(#[trigger] rest[i]) == x;
            assert(crate::text::trimmed(parts[i]) == x);
        }
        if exists|i: int| 0 <= i < parts.len() && crate::text::trimmed(#[trigger] parts[i]) == x {
            let i = choose|i: int| 0 <= i < parts.len() && crate::text::trimmed(#[trigger] parts[i]) == x;
            if i < rest.len() {
                assert(crate::text::trimmed(rest[i]) == x);
            }
        }
    }
}

proof fn lemma_closes(s: Seq<char>, i: int, end: int)
    requires
        0 <= i <= end < s.len(),
        s[end] == ')',
        forall|k: int| i <= k < end ==> #[trigger] s[k] != '(' && s[k] != ')',
    ensures
        closing_at(s, i, 1) == Some(end),
    decreases end - i,
{
    if i < end {
        assert(s[i] != '(' && s[i] != ')');
        lemma_closes(s, i + 1, end);
    }
}

/// A call of a function is found where its name first stands with a bracket behind it,
/// unless that is the end of a longer name.
pub proof fn calls_are_found(a: Seq<char>, name: Seq<char>, inner: Seq<char>, b: Seq<char>, k: nat)
    requires
        !inner.contains('('),
        !inner.contains(')'),
        first_at(a + name.push('(') + inner.push(')') + b, name.push('('), 0) == Some(a.len() as int),
        a.len() == 0 || !is_word_char(a.last()),
    ensures
        one_call(a + name.push('(') + inner.push(')') + b, name, k) == Some(
            (a + marker(k) + b, call_args(crate::text::split(inner, ','))),
        ),
{
    let s = a + name.push('(') + inner.push(')') + b;
    let head = call_head(name);
    let p = a.len() as int;
    let from = p + head.len();
    let end = from + inner.len();
    assert(head.len() == name.len() + 1);
    assert(p + head.len() <= s.len());
    if p > 0 {
        assert(s[p - 1] == a.last());
    }
    assert(call_at(s, head, 0) == Some(p));
    assert forall|j: int| from <= j < end implies #[trigger] s[j] != '(' && s[j] != ')' by {
        assert(s[j] == inner[j - from]);
        assert(inner.contains(inner[j - from]));
    }
    assert(s[end] == ')');
    lemma_closes(s, from, end);
    assert(s.subrange(0, p) =~= a);
    assert(s.subrange(end + 1, s.len() as int) =~= b);
    assert(s.subrange(from, end) =~= inner);
}

/// The marks are numbered in the order in which the calls are replaced: a name's calls
/// one after the other, and each name's after those of the names before it.
pub proof fn marks_are_numbered_in_order(s: Seq<char>, names: Seq<Seq<char>>, name: Seq<char>, k: nat)
    ensures
        one_call(s, name, k) is None ==> calls_of(s, name, k) == (s, Seq::<Call>::empty()),
        one_call(s, name, k) matches Some((next, args)) ==> (count_of(next, '(') < count_of(s, '(') ==> calls_of(s, name, k)
            == (calls_of(next, name, k + 1).0, seq![Call { name, args }] + calls_of(next, name, k + 1).1)),
        extracted(s, Seq::empty()) == (s, Seq::<Call>::empty()),
        ({
            let before = extracted(s, names);
            let after = calls_of(before.0, name, before.1.len());
            extracted(s, names.push(name)) == (after.0, before.1 + after.1)
        }),
{
    assert(names.push(name).drop_last() =~= names);
}

} // verus!
