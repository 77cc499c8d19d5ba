//! WHERE expressions as SQL text.

use vstd::prelude::*;
use vstd::string::*;
use crate::index::{join_texts, joined_by, number_text, text_of_number};
use crate::json::{json_shown, json_text, json_views, Json, JsonValue};
use crate::text::{chars_of, push_chars, text_of, text_views};

verus! {

/// A WHERE expression.
pub enum WhereExpr {
    True,
    And(Box<WhereExpr>, Box<WhereExpr>),
    Or(Box<WhereExpr>, Box<WhereExpr>),
    Not(Box<WhereExpr>),
    Compare { col: String, op: String, value: JsonValue },
    In { col: String, values: Vec<JsonValue>, negate: bool },
    Like { col: String, pattern: String, negate: bool },
    IsNull { col: String, negate: bool },
    Subquery { col: String, query: String, negate: bool },
}

/// A value as a SQL literal: a text in single quotes, null in capitals, else
/// its JSON text.
pub open spec fn sql_literal(v: Json) -> Seq<char> {
    match v {
        Json::String(s) => "'"@ + s + "'"@,
        Json::Number(n) => number_text(n),
        Json::Bool(b) => if b {
            "true"@
        } else {
            "false"@
        },
        Json::Null => "NULL"@,
        _ => json_shown(v),
    }
}

pub open spec fn sql_literals(values: Seq<Json>) -> Seq<Seq<char>> {
    Seq::new(values.len(), |i: int| sql_literal(values[i]))
}

/// The SQL text of an expression.
pub open spec fn sql_of(e: WhereExpr) -> Seq<char>
    decreases e,
{
    match e {
        WhereExpr::True => ""@,
        WhereExpr::And(a, b) => "("@ + sql_of(*a) + " AND "@ + sql_of(*b) + ")"@,
        WhereExpr::Or(a, b) => "("@ + sql_of(*a) + " OR "@ + sql_of(*b) + ")"@,
        WhereExpr::Not(a) => "NOT ("@ + sql_of(*a) + ")"@,
        WhereExpr::Compare { col, op, value } => col@ + " "@ + op@ + " "@ + sql_literal(value@),
        WhereExpr::In { col, values, negate } => col@ + (if negate {
            " NOT IN ("@
        } else {
            " IN ("@
        }) + joined_by(sql_literals(json_views(values@)), ", "@) + ")"@,
        WhereExpr::Like { col, pattern, negate } => col@ + (if negate {
            " NOT LIKE '"@
        } else {
            " LIKE '"@
        }) + pattern@ + "'"@,
        WhereExpr::IsNull { col, negate } => col@ + (if negate {
            " IS NOT NULL"@
        } else {
            " IS NULL"@
        }),
        WhereExpr::Subquery { col, query, negate } => col@ + (if negate {
            " NOT IN ("@
        } else {
            " IN ("@
        }) + query@ + ")"@,
    }
}

/// Writes a value as a SQL literal.
pub fn json_to_sql_literal(v: &JsonValue) -> (r: String)
    ensures
        r@ == sql_literal(v@),
{
    match v {
        JsonValue::String(s) => {
            let mut out = chars_of("'");
            let c = chars_of(s);
            push_chars(&mut out, &c);
            let q = chars_of("'");
            push_chars(&mut out, &q);
            text_of(&out)
        },
        JsonValue::Number(n) => text_of_number(n),
        JsonValue::Bool(b) => if *b {
            "true".to_owned()
        } else {
            "false".to_owned()
        },
        JsonValue::Null => "NULL".to_owned(),
        _ => json_text(v),
    }
}

fn push_text(out: &mut Vec<char>, s: &str)
    ensures
        final(out)@ == old(out)@ + s@,
{
    let c = chars_of(s);
    push_chars(out, &c);
}

fn literals(values: &Vec<JsonValue>) -> (r: Vec<String>)
    ensures
        text_views(r@) == sql_literals(json_views(values@)),
{
    let ghost want = sql_literals(json_views(values@));
    let mut out: Vec<String> = Vec::new();
    let mut i: usize = 0;
    proof {
        assert(text_views(out@) =~= want.take(0));
    }
    while i < values.len()
        invariant
            i <= values@.len(),
            want == sql_literals(json_views(values@)),
            text_views(out@) == want.take(i as int),
        decreases values@.len() - i,
    {
        let ghost before = text_views(out@);
        let t = json_to_sql_literal(&values[i]);
        let ghost tv = t@;
        out.push(t);
        proof {
            assert(text_views(out@) =~= before.push(tv));
            assert(want.take(i as int + 1) =~= want.take(i as int).push(want[i as int]));
        }
        i = i + 1;
    }
    proof {
        assert(want.take(i as int) =~= want);
    }
    out
}

/// Writes an expression as SQL.
pub fn where_expr_to_sql(expr: &WhereExpr) -> (r: String)
    ensures
        r@ == sql_of(*expr),
    decreases expr,
{
    let mut out: Vec<char> = Vec::new();
    match expr {
        WhereExpr::True => {
            return "".to_owned();
        },
        WhereExpr::And(a, b) => {
            let x = where_expr_to_sql(a);
            let y = where_expr_to_sql(b);
            out = chars_of("(");
            push_text(&mut out, &x);
            push_text(&mut out, " AND ");
            push_text(&mut out, &y);
            push_text(&mut out, ")");
        },
        WhereExpr::Or(a, b) => {
            let x = where_expr_to_sql(a);
            let y = where_expr_to_sql(b);
            out = chars_of("(");
            push_text(&mut out, &x);
            push_text(&mut out, " OR ");
            push_text(&mut out, &y);
            push_text(&mut out, ")");
        },
        WhereExpr::Not(a) => {
            let x = where_expr_to_sql(a);
            out = chars_of("NOT (");
            push_text(&mut out, &x);
            push_text(&mut out, ")");
        },
        WhereExpr::Compare { col, op, value } => {
            let v = json_to_sql_literal(value);
            out = chars_of(col);
            push_text(&mut out, " ");
            push_text(&mut out, op);
            push_text(&mut out, " ");
            push_text(&mut out, &v);
        },
        WhereExpr::In { col, values, negate } => {
            let texts = literals(values);
            let comma = chars_of(", ");
            let list = join_texts(&texts, &comma);
            out = chars_of(col);
            push_text(
                &mut out,
                if *negate {
                    " NOT IN ("
                } else {
                    " IN ("
                },
            );
            push_text(&mut out, &list);
            push_text(&mut out, ")");
        },
        WhereExpr::Like { col, pattern, negate } => {
            out = chars_of(col);
            push_text(
                &mut out,
                if *negate {
                    " NOT LIKE '"
                } else {
                    " LIKE '"
                },
            );
            push_text(&mut out, pattern);
            push_text(&mut out, "'");
        },
        WhereExpr::IsNull { col, negate } => {
            out = chars_of(col);
            push_text(
                &mut out,
                if *negate {
                    " IS NOT NULL"
                } else {
                    " IS NULL"
                },
            );
        },
        WhereExpr::Subquery { col, query, negate } => {
            out = chars_of(col);
            push_text(
                &mut out,
                if *negate {
                    " NOT IN ("
                } else {
                    " IN ("
                },
            );
            push_text(&mut out, query);
            push_text(&mut out, ")");
        },
    }
    text_of(&out)
}

} // verus!
