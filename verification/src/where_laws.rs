//! What the text of a condition says.

use vstd::prelude::*;
use vstd::string::*;
use crate::json::{Json, Number};
use crate::order_laws::lemma_op_names;
use crate::text::{ascii_lowered, decimal_int, first_at, occurs_at, trimmed};
use crate::text_laws::{lemma_first_at, numbers_read_back};
use crate::where_clause::{and_at, and_parts, byte_quotes_after, clause_of, count_of, found_op, op_place, predicate_of,
    predicates_of, quotes_after, quotes_even, value_of, FloatTable, PredicateView, ReadingView};

verus! {

/// A character of an operator or a quote.
pub open spec fn is_sign(c: char) -> bool {
    c == '=' || c == '<' || c == '>' || c == '!' || c == '\'' || c == '"'
}

/// A text without signs.
pub open spec fn no_sign(s: Seq<char>) -> bool {
    forall|i: int| 0 <= i < s.len() ==> !is_sign(#[trigger] s[i])
}

proof fn lemma_quotes_outside(s: Seq<char>, n: nat)
    requires
        n <= s.len(),
        forall|i: int| 0 <= i < n ==> (#[trigger] s[i]) != '\'' && s[i] != '"',
    ensures
        quotes_after(s, n) == (false, false),
    decreases n,
{
    if n > 0 {
        lemma_quotes_outside(s, (n - 1) as nat);
    }
}

/// A text of operator characters stands in `a + op + b` only within the operator.
proof fn lemma_sign_place(a: Seq<char>, op: Seq<char>, b: Seq<char>, x: Seq<char>, at: int)
    requires
        no_sign(a),
        no_sign(b),
        x.len() > 0,
        forall|i: int| 0 <= i < x.len() ==> is_sign(#[trigger] x[i]),
        occurs_at(a + op + b, x, at),
    ensures
        a.len() <= at,
        at + x.len() <= a.len() + op.len(),
        op.subrange(at - a.len(), at - a.len() + x.len()) == x,
{
    let s = a + op + b;
    let part = s.subrange(at, at + x.len());
    assert(part == x);
    assert(part[0] == x[0] && s[at] == x[0]);
    let last = x.len() - 1;
    assert(part[last] == x[last] && s[at + last] == x[last]);
    if at < a.len() {
        assert(s[at] == a[at]);
    }
    if at + last >= a.len() + op.len() {
        assert(s[at + last] == b[at + last - a.len() - op.len()]);
    }
    assert(op.subrange(at - a.len(), at - a.len() + x.len()) =~= part);
}

proof fn lemma_place(a: Seq<char>, op: Seq<char>, b: Seq<char>, x: Seq<char>)
    requires
        no_sign(a),
        no_sign(b),
        0 < x.len(),
        0 < op.len() <= 2,
        forall|i: int| 0 <= i < x.len() ==> is_sign(#[trigger] x[i]),
    ensures
        op_place(a + op + b, x) is Some ==> exists|k: int|
            0 <= k && k + x.len() <= op.len() && #[trigger] op.subrange(k, k + x.len()) == x,
        x == op ==> op_place(a + op + b, x) == Some(a.len() as int),
{
    let s = a + op + b;
    lemma_first_at(s, x, 0);
    if let Some(i) = first_at(s, x, 0) {
        lemma_sign_place(a, op, b, x, i);
        assert(op.subrange(i - a.len(), i - a.len() + x.len()) == x);
    }
    if x == op {
        assert(s.subrange(a.len() as int, (a.len() + op.len()) as int) =~= op);
        assert(occurs_at(s, x, a.len() as int));
        let i = first_at(s, x, 0)->0;
        lemma_sign_place(a, op, b, x, i);
        assert(i == a.len());
        assert forall|k: int| 0 <= k < i implies (#[trigger] s[k]) != '\'' && s[k] != '"' by {
            assert(s[k] == a[k]);
        }
        lemma_quotes_outside(s, i as nat);
    }
}

proof fn lemma_signs()
    ensures
        forall|i: int| 0 <= i < "="@.len() ==> is_sign(#[trigger] "="@[i]),
        forall|i: int| 0 <= i < "<"@.len() ==> is_sign(#[trigger] "<"@[i]),
        forall|i: int| 0 <= i < ">"@.len() ==> is_sign(#[trigger] ">"@[i]),
        forall|i: int| 0 <= i < "=="@.len() ==> is_sign(#[trigger] "=="@[i]),
        forall|i: int| 0 <= i < "!="@.len() ==> is_sign(#[trigger] "!="@[i]),
        forall|i: int| 0 <= i < "<="@.len() ==> is_sign(#[trigger] "<="@[i]),
        forall|i: int| 0 <= i < ">="@.len() ==> is_sign(#[trigger] ">="@[i]),
        forall|i: int| 0 <= i < "<>"@.len() ==> is_sign(#[trigger] "<>"@[i]),
        "="@.len() == 1 && "<"@.len() == 1 && ">"@.len() == 1,
        "=="@.len() == 2 && "!="@.len() == 2 && "<="@.len() == 2 && ">="@.len() == 2 && "<>"@.len() == 2,
        "="@[0] == '=' && "<"@[0] == '<' && ">"@[0] == '>',
        "=="@[0] == '=' && "=="@[1] == '=' && "!="@[0] == '!' && "!="@[1] == '=' && "<="@[0] == '<' && "<="@[1] == '='
            && ">="@[0] == '>' && ">="@[1] == '=' && "<>"@[0] == '<' && "<>"@[1] == '>',
{
    reveal_strlit("=");
    reveal_strlit("==");
    reveal_strlit("!=");
    reveal_strlit("<");
    reveal_strlit(">");
    reveal_strlit("<=");
    reveal_strlit(">=");
    reveal_strlit("<>");
}

proof fn lemma_no_place(a: Seq<char>, op: Seq<char>, b: Seq<char>, x: Seq<char>)
    requires
        no_sign(a),
        no_sign(b),
        0 < x.len() <= 2,
        0 < op.len() <= 2,
        forall|i: int| 0 <= i < x.len() ==> is_sign(#[trigger] x[i]),
        x != op,
        x.len() == 2 || (op.len() == 1),
    ensures
        op_place(a + op + b, x) is None,
{
    lemma_place(a, op, b, x);
    if op_place(a + op + b, x) is Some {
        let k = choose|k: int| 0 <= k && k + x.len() <= op.len() && #[trigger] op.subrange(k, k + x.len()) == x;
        assert(op.subrange(0, op.len() as int) =~= op);
        assert(k == 0 && x.len() == op.len());
    }
}

/// One of the operators.
pub open spec fn is_operator(op: Seq<char>) -> bool {
    op == "="@ || op == "=="@ || op == "!="@ || op == "<>"@ || op == "<"@ || op == "<="@ || op == ">"@ || op == ">="@
}

/// A text with one operator in it is read as that operator, between what stands before
/// and after it.
pub proof fn the_operator_is_found(a: Seq<char>, op: Seq<char>, b: Seq<char>)
    requires
        no_sign(a),
        no_sign(b),
        is_operator(op),
    ensures
        found_op(a + op + b) == Some((a.len() as int, op)),
{
    lemma_signs();
    lemma_op_names();
    lemma_place(a, op, b, op);
    if op != "=="@ {
        lemma_no_place(a, op, b, "=="@);
    }
    if op != "!="@ {
        lemma_no_place(a, op, b, "!="@);
    }
    if op != "<="@ {
        lemma_no_place(a, op, b, "<="@);
    }
    if op != ">="@ {
        lemma_no_place(a, op, b, ">="@);
    }
    if op != "<>"@ {
        lemma_no_place(a, op, b, "<>"@);
    }
    if op.len() == 1 {
        if op != "="@ {
            lemma_no_place(a, op, b, "="@);
        }
        if op != "<"@ {
            lemma_no_place(a, op, b, "<"@);
        }
    }
}

/// A comparison says what stands in it: the column before the operator, the operator,
/// and the value after it. `<>` is read as `!=`. One without a column or a value is
/// refused.
pub proof fn comparisons_are_read_as_written(a: Seq<char>, op: Seq<char>, b: Seq<char>, floats: FloatTable)
    requires
        no_sign(a),
        no_sign(b),
        is_operator(op),
    ensures
        ({
            let said = predicate_of(a + op + b, floats);
            &&& trimmed(a).len() == 0 || trimmed(b).len() == 0 ==> said is Err
            &&& trimmed(a).len() > 0 && trimmed(b).len() > 0 ==> said is Ok && said->Ok_0.col == trimmed(a)
                && said->Ok_0.op == (if op == "<>"@ {
                "!="@
            } else {
                op
            }) && Some(said->Ok_0.value) == value_of(trimmed(b), floats.reading(trimmed(b)))
        }),
{
    the_operator_is_found(a, op, b);
    let s = a + op + b;
    assert(s.subrange(0, a.len() as int) =~= a);
    assert(s.subrange((a.len() + op.len()) as int, s.len() as int) =~= b);
}

/// A value in quotes is the text between them; the words true, false and null, in any
/// case, are what they say; a whole number is that number.
pub proof fn values_are_read_as_written(x: Seq<char>, n: i64, reading: ReadingView)
    ensures
        value_of(seq!['\''] + x + seq!['\''], reading) == Some(Json::String(x)),
        value_of(seq!['"'] + x + seq!['"'], reading) == Some(Json::String(x)),
        ascii_lowered(x) == "true"@ ==> value_of(x, reading) == Some(Json::Bool(true)),
        ascii_lowered(x) == "false"@ ==> value_of(x, reading) == Some(Json::Bool(false)),
        ascii_lowered(x) == "null"@ ==> value_of(x, reading) == Some(Json::Null),
        value_of(decimal_int(n as int), reading) == Some(Json::Number(Number::Int(n))),
        value_of(Seq::empty(), reading) is None,
{
    let s = seq!['\''] + x + seq!['\''];
    assert(s.subrange(1, s.len() - 1) =~= x);
    let d = seq!['"'] + x + seq!['"'];
    assert(d.subrange(1, d.len() - 1) =~= x);
    reveal_strlit("true");
    reveal_strlit("false");
    reveal_strlit("null");
    let low = ascii_lowered(x);
    if low == "true"@ || low == "false"@ || low == "null"@ {
        assert(low.len() == x.len());
        assert(x.len() > 0);
        assert(low[0] == crate::text::ascii_lower(x[0]));
    }
    assert("true"@.len() == 4 && "false"@.len() == 5 && "null"@.len() == 4);
    assert("true"@[0] == 't' && "null"@[0] == 'n' && "false"@[0] == 'f');
    numbers_read_back(n);
    let t = decimal_int(n as int);
    crate::text_laws::only_digits_are_numbers(t, 0);
    assert(t.len() > 0);
    assert(ascii_lowered(t)[0] == t[0]);
    assert(ascii_lowered(t).len() == t.len());
}

proof fn lemma_and_skip(s: Seq<char>, start: int, i: int, end: int)
    requires
        0 <= start <= i <= end,
        end + 5 <= s.len(),
        forall|k: int| i <= k < end ==> !#[trigger] and_at(s, k),
    ensures
        and_parts(s, start, i) == and_parts(s, start, end),
    decreases end - i,
{
    if i < end {
        assert(!and_at(s, i));
        lemma_and_skip(s, start, i + 1, end);
    }
}

proof fn lemma_and_shift(s: Seq<char>, a: Seq<char>, b: Seq<char>, start: int, i: int)
    requires
        s == a + b,
        0 <= start <= i,
        start <= b.len(),
    ensures
        and_parts(s, a.len() + start, a.len() + i) == and_parts(b, start, i),
    decreases b.len() - i,
{
    let n = a.len() as int;
    assert(s.subrange(n + start, s.len() as int) =~= b.subrange(start, b.len() as int));
    if i + 5 <= b.len() {
        assert(s.subrange(n + i, n + i + 5) =~= b.subrange(i, i + 5));
        assert(s.subrange(n + start, n + i) =~= b.subrange(start, i));
        lemma_and_shift(s, a, b, i + 5, i + 5);
        lemma_and_shift(s, a, b, start, i + 1);
    }
}

/// Conditions joined by AND, in any case, are read one by one: what stands before the
/// first AND is one, and what stands after it is read likewise.
pub proof fn conditions_are_joined_by_and(a: Seq<char>, and: Seq<char>, b: Seq<char>)
    requires
        ascii_lowered(and) == " and "@,
        quotes_even(a),
        forall|k: int| 0 <= k < a.len() ==> !#[trigger] and_at(a + and + b, k),
    ensures
        and_parts(a + and + b, 0, 0) == seq![a] + and_parts(b, 0, 0),
{
    reveal_strlit(" and ");
    let s = a + and + b;
    assert(and.len() == 5) by {
        assert(ascii_lowered(and).len() == and.len());
    }
    let n = a.len() as int;
    lemma_and_skip(s, 0, 0, n);
    assert(s.subrange(n, n + 5) =~= and);
    assert(s.subrange(0, n) =~= a);
    assert(s =~= (a + and) + b);
    lemma_and_shift(s, a + and, b, 0, 0);
}

proof fn lemma_predicates_add(a: Seq<Seq<char>>, b: Seq<Seq<char>>, floats: FloatTable, n: nat)
    requires
        n <= b.len(),
        predicates_of(a, floats, a.len()) is Ok,
    ensures
        predicates_of(a + b, floats, a.len() + n) == (match predicates_of(b, floats, n) {
            Ok(more) => Ok::<Seq<PredicateView>, Seq<char>>(predicates_of(a, floats, a.len())->Ok_0 + more),
            Err(e) => Err::<Seq<PredicateView>, Seq<char>>(e),
        }),
    decreases n,
{
    if n == 0 {
        lemma_predicates_prefix(a, b, floats, a.len());
        let p = predicates_of(a, floats, a.len())->Ok_0;
        assert(p + Seq::<PredicateView>::empty() =~= p);
    } else {
        lemma_predicates_add(a, b, floats, (n - 1) as nat);
        assert((a + b)[a.len() + n - 1] == b[n - 1]);
        let p = predicates_of(a, floats, a.len())->Ok_0;
        if let Ok(prev) = predicates_of(b, floats, (n - 1) as nat) {
            if let Ok(x) = predicate_of(trimmed(b[n - 1]), floats) {
                assert(p + prev.push(x) =~= (p + prev).push(x));
            }
        }
    }
}

proof fn lemma_predicates_prefix(a: Seq<Seq<char>>, b: Seq<Seq<char>>, floats: FloatTable, n: nat)
    requires
        n <= a.len(),
    ensures
        predicates_of(a + b, floats, n) == predicates_of(a, floats, n),
    decreases n,
{
    if n > 0 {
        lemma_predicates_prefix(a, b, floats, (n - 1) as nat);
        assert((a + b)[n - 1] == a[n - 1]);
    }
}

/// A condition before an AND asks for itself and for all that stands after the AND.
pub proof fn and_asks_for_both(a: Seq<char>, and: Seq<char>, b: Seq<char>, floats: FloatTable)
    requires
        ascii_lowered(and) == " and "@,
        quotes_even(a),
        forall|k: int| 0 <= k < a.len() ==> !#[trigger] and_at(a + and + b, k),
        trimmed(a).len() > 0,
        predicate_of(trimmed(a), floats) is Ok,
    ensures
        clause_of(a + and + b, floats) == (match clause_of(b, floats) {
            Ok(more) => Ok::<Seq<PredicateView>, Seq<char>>(
                seq![predicate_of(trimmed(a), floats)->Ok_0] + more,
            ),
            Err(e) => Err::<Seq<PredicateView>, Seq<char>>(e),
        }),
{
    conditions_are_joined_by_and(a, and, b);
    let one = seq![a];
    let more = and_parts(b, 0, 0);
    assert(predicates_of(one, floats, 0) == Ok::<Seq<PredicateView>, Seq<char>>(Seq::empty()));
    assert(one[0] == a);
    assert(Seq::<PredicateView>::empty().push(predicate_of(trimmed(a), floats)->Ok_0) =~= seq![
        predicate_of(trimmed(a), floats)->Ok_0,
    ]);
    assert(predicates_of(one, floats, 1) == Ok::<Seq<PredicateView>, Seq<char>>(
        seq![predicate_of(trimmed(a), floats)->Ok_0],
    ));
    lemma_predicates_add(one, more, floats, more.len());
}

/// A quote opens a quoted text unless one of the other kind is open, and the next of its
/// kind closes it; nothing else opens or closes one.
pub proof fn quotes_open_and_close(s: Seq<char>, n: nat, b: Seq<u8>, m: nat)
    requires
        n < s.len(),
        m < b.len(),
    ensures
        !quotes_after(s, 0).0 && !quotes_after(s, 0).1,
        s[n as int] != '\'' && s[n as int] != '"' ==> quotes_after(s, n + 1) == quotes_after(s, n),
        s[n as int] == '\'' ==> quotes_after(s, n + 1).1 == quotes_after(s, n).1 && (quotes_after(s, n + 1).0
            != quotes_after(s, n).0 <==> !quotes_after(s, n).1),
        s[n as int] == '"' ==> quotes_after(s, n + 1).0 == quotes_after(s, n).0 && (quotes_after(s, n + 1).1 != quotes_after(
            s,
            n,
        ).1 <==> !quotes_after(s, n).0),
        !byte_quotes_after(b, 0).0 && !byte_quotes_after(b, 0).1,
        b[m as int] != 39 && b[m as int] != 34 ==> byte_quotes_after(b, m + 1) == byte_quotes_after(b, m),
        b[m as int] == 39 ==> byte_quotes_after(b, m + 1).1 == byte_quotes_after(b, m).1 && (byte_quotes_after(b, m + 1).0
            != byte_quotes_after(b, m).0 <==> !byte_quotes_after(b, m).1),
        b[m as int] == 34 ==> byte_quotes_after(b, m + 1).0 == byte_quotes_after(b, m).0 && (byte_quotes_after(b, m + 1).1
            != byte_quotes_after(b, m).1 <==> !byte_quotes_after(b, m).0),
{
}

proof fn lemma_count_none(s: Seq<char>, c: char)
    requires
        !s.contains(c),
    ensures
        count_of(s, c) == 0,
    decreases s.len(),
{
    if s.len() > 0 {
        let t = s.drop_last();
        assert(s[s.len() - 1] == s.last());
        if t.contains(c) {
            let k = choose|k: int| 0 <= k < t.len() && t[k] == c;
            assert(s[k] == c);
        }
        lemma_count_none(t, c);
    }
}

proof fn lemma_count_one(a: Seq<char>, b: Seq<char>, c: char)
    requires
        !a.contains(c),
        !b.contains(c),
    ensures
        count_of(a.push(c) + b, c) == 1,
    decreases b.len(),
{
    let s = a.push(c) + b;
    if b.len() == 0 {
        assert(s.drop_last() =~= a);
        lemma_count_none(a, c);
    } else {
        let t = b.drop_last();
        assert(b[b.len() - 1] == b.last());
        if t.contains(c) {
            let k = choose|k: int| 0 <= k < t.len() && t[k] == c;
            assert(b[k] == c);
        }
        lemma_count_one(a, t, c);
        assert(s.drop_last() =~= a.push(c) + t);
    }
}

proof fn lemma_and_has_no_quote(s: Seq<char>, i: int, k: int)
    requires
        0 <= i,
        i + 5 <= s.len(),
        and_at(s, i),
        i <= k < i + 5,
    ensures
        s[k] != '\'',
{
    reveal_strlit(" and ");
    let low = ascii_lowered(s.subrange(i, i + 5));
    assert(low[k - i] == " and "@[k - i]);
    assert(s.subrange(i, i + 5)[k - i] == s[k]);
    assert(" and "@[0] == ' ' && " and "@[1] == 'a' && " and "@[2] == 'n' && " and "@[3] == 'd' && " and "@[4] == ' ');
    if s[k] == '\'' {
        assert(low[k - i] == '\'');
    }
}

proof fn lemma_whole(a: Seq<char>, q: Seq<char>, i: int)
    requires
        !a.contains('\''),
        !q.contains('\''),
        forall|k: int| 0 <= k && k + 5 <= a.len() ==> !#[trigger] and_at(a, k),
        0 <= i,
    ensures
        and_parts(a.push('\'') + q.push('\''), 0, i) == seq![a.push('\'') + q.push('\'')],
    decreases a.len() + q.len() + 2 - i,
{
    let s = a.push('\'') + q.push('\'');
    if i + 5 > s.len() {
        assert(s.subrange(0, s.len() as int) =~= s);
    } else {
        if and_at(s, i) {
            let n = a.len() as int;
            if i + 5 <= n {
                assert(s.subrange(i, i + 5) =~= a.subrange(i, i + 5));
                assert(and_at(a, i));
            } else if i <= n {
                lemma_and_has_no_quote(s, i, n);
                assert(s[n] == '\'');
            } else {
                if i + 5 == s.len() {
                    lemma_and_has_no_quote(s, i, s.len() - 1);
                }
                let part = q.take(i - n - 1);
                if part.contains('\'') {
                    let k = choose|k: int| 0 <= k < part.len() && part[k] == '\'';
                    assert(q[k] == '\'');
                }
                lemma_count_one(a, part, '\'');
                assert(s.subrange(0, i) =~= a.push('\'') + part);
            }
        }
        assert(!(and_at(s, i) && quotes_even(s.subrange(0, i))));
        lemma_whole(a, q, i + 1);
    }
}

/// The word AND inside a quoted text does not end a condition.
pub proof fn quoted_texts_are_not_cut(a: Seq<char>, q: Seq<char>)
    requires
        !a.contains('\''),
        !q.contains('\''),
        forall|k: int| 0 <= k && k + 5 <= a.len() ==> !#[trigger] and_at(a, k),
    ensures
        and_parts(a.push('\'') + q.push('\''), 0, 0) == seq![a.push('\'') + q.push('\'')],
{
    lemma_whole(a, q, 0);
}

} // verus!
