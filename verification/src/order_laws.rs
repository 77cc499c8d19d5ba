//! The order of texts and of floats, and what comparisons by it mean.

use vstd::prelude::*;
use vstd::string::*;
use vstd::utf8::{encode_utf8, encode_utf8_decode_utf8};
use crate::float::{f64_below, f64_same};
use crate::json::{float_of, json_same, member, Json, Number};
use crate::predicate::{condition_holds, like, op_condition, predicate_holds, row_meets, value_order, Order};
use crate::text::{bytes_before, lemma_bytes_order_total, text_before};

verus! {

/// Byte strings part at `k`: they are alike before it, and there the first ends or
/// has the lesser byte.
pub open spec fn parts_below_at(a: Seq<u8>, b: Seq<u8>, k: int) -> bool {
    &&& 0 <= k <= a.len() && k < b.len()
    &&& forall|i: int| 0 <= i < k ==> #[trigger] a[i] == b[i]
    &&& k == a.len() || a[k] < b[k]
}

/// A byte string comes before another just where they part somewhere and the first
/// ends there or has the lesser byte.
pub proof fn bytes_are_ordered_by_the_first_difference(a: Seq<u8>, b: Seq<u8>)
    ensures
        bytes_before(a, b) <==> exists|k: int| #[trigger] parts_below_at(a, b, k),
    decreases a.len(),
{
    if b.len() > 0 && a.len() == 0 {
        assert(parts_below_at(a, b, 0));
    }
    if a.len() > 0 && b.len() > 0 {
        let x = a.drop_first();
        let y = b.drop_first();
        bytes_are_ordered_by_the_first_difference(x, y);
        if bytes_before(a, b) {
            if a[0] != b[0] {
                assert(parts_below_at(a, b, 0));
            } else {
                let k = choose|k: int| #[trigger] parts_below_at(x, y, k);
                assert forall|i: int| 0 <= i < k + 1 implies #[trigger] a[i] == b[i] by {
                    if i > 0 {
                        assert(x[i - 1] == y[i - 1]);
                    }
                }
                assert(k < x.len() ==> x[k] == a[k + 1] && y[k] == b[k + 1]);
                assert(parts_below_at(a, b, k + 1));
            }
        }
        if exists|k: int| #[trigger] parts_below_at(a, b, k) {
            let k = choose|k: int| #[trigger] parts_below_at(a, b, k);
            if k > 0 {
                assert(a[0] == b[0]);
                assert forall|i: int| 0 <= i < k - 1 implies #[trigger] x[i] == y[i] by {
                    assert(a[i + 1] == b[i + 1]);
                }
                assert(k < a.len() ==> x[k - 1] == a[k] && y[k - 1] == b[k]);
                assert(parts_below_at(x, y, k - 1));
            } else {
                assert(a[0] < b[0]);
            }
        }
    }
}

/// Of two texts exactly one of three holds: the first comes before the second, they
/// are the same, the second comes before the first.
pub proof fn texts_compare_one_way(a: Seq<char>, b: Seq<char>)
    ensures
        text_before(a, b) <==> exists|k: int| #[trigger] parts_below_at(encode_utf8(a), encode_utf8(b), k),
        text_before(a, b) ==> a != b && !text_before(b, a),
        a == b ==> !text_before(a, b) && !text_before(b, a),
        a != b ==> text_before(a, b) || text_before(b, a),
{
    encode_utf8_decode_utf8(a);
    encode_utf8_decode_utf8(b);
    bytes_are_ordered_by_the_first_difference(encode_utf8(a), encode_utf8(b));
    lemma_bytes_order_total(encode_utf8(a), encode_utf8(b));
    if text_before(a, a) {
        bytes_are_ordered_by_the_first_difference(encode_utf8(a), encode_utf8(a));
    }
}

/// A cell that is a text, compared with a text. `=` holds of the same text and `!=`
/// of any other; `<` where the bytes of the cell come before those of the value and
/// `>` where they come after; `<=` where `>` does not hold and `>=` where `<` does
/// not.
pub proof fn text_cells_compare_by_bytes(row: Json, col: Seq<char>, a: Seq<char>, b: Seq<char>)
    requires
        member(row, col) == Some(Json::String(a)),
    ensures
        ({
            let holds = |op: Seq<char>| predicate_holds(row, col, op, Json::String(b));
            &&& holds("="@) <==> a == b
            &&& holds("=="@) <==> a == b
            &&& holds("!="@) <==> a != b
            &&& holds("<"@) <==> exists|k: int| #[trigger] parts_below_at(encode_utf8(a), encode_utf8(b), k)
            &&& holds(">"@) <==> exists|k: int| #[trigger] parts_below_at(encode_utf8(b), encode_utf8(a), k)
            &&& holds("<="@) <==> !holds(">"@)
            &&& holds(">="@) <==> !holds("<"@)
            &&& holds("<"@) ==> !holds("="@) && !holds(">"@)
            &&& holds(">"@) ==> !holds("="@)
            &&& holds("<"@) || holds("="@) || holds(">"@)
        }),
{
    lemma_op_names();
    texts_compare_one_way(a, b);
    texts_compare_one_way(b, a);
}

/// The operators are written differently.
pub proof fn lemma_op_names()
    ensures
        "="@ != "=="@ && "="@ != "!="@ && "="@ != "<"@ && "="@ != ">"@ && "="@ != "<="@ && "="@ != ">="@ && "="@
            != "<>"@,
        "=="@ != "!="@ && "=="@ != "<"@ && "=="@ != ">"@ && "=="@ != "<="@ && "=="@ != ">="@ && "=="@ != "<>"@,
        "!="@ != "<"@ && "!="@ != ">"@ && "!="@ != "<="@ && "!="@ != ">="@ && "!="@ != "<>"@,
        "<"@ != ">"@ && "<"@ != "<="@ && "<"@ != ">="@ && "<"@ != "<>"@,
        ">"@ != "<="@ && ">"@ != ">="@ && ">"@ != "<>"@,
        "<="@ != ">="@ && "<="@ != "<>"@,
        ">="@ != "<>"@,
{
    reveal_strlit("=");
    reveal_strlit("==");
    reveal_strlit("!=");
    reveal_strlit("<");
    reveal_strlit(">");
    reveal_strlit("<=");
    reveal_strlit(">=");
    reveal_strlit("<>");
    assert("="@.len() == 1 && "<"@.len() == 1 && ">"@.len() == 1);
    assert("=="@.len() == 2 && "!="@.len() == 2 && "<="@.len() == 2 && ">="@.len() == 2 && "<>"@.len() == 2);
    assert("="@[0] == '=' && "<"@[0] == '<' && ">"@[0] == '>');
    assert("=="@[0] == '=' && "!="@[0] == '!' && "<="@[0] == '<' && ">="@[0] == '>' && "<>"@[0] == '<');
    assert("<="@[1] == '=' && "<>"@[1] == '>');
}

/// Floats that are numbers are ordered as such: a positive one as its bits, a
/// negative one below it and in the opposite order, and the two zeros are equal. What
/// is no number is neither below nor above nor equal to anything.
pub proof fn floats_are_ordered_as_numbers(a: u64, b: u64)
    ensures
        ({
            let sign = 0x8000_0000_0000_0000u64;
            let no_number = |x: u64| x % sign > 0x7FF0_0000_0000_0000u64;
            let negative = |x: u64| x > sign;
            let zero = |x: u64| x == 0 || x == sign;
            &&& no_number(a) || no_number(b) ==> !f64_below(a, b) && !f64_same(a, b)
            &&& !no_number(a) && !no_number(b) ==> {
                &&& f64_below(a, b) || f64_below(b, a) || f64_same(a, b)
                &&& !(f64_below(a, b) && f64_below(b, a)) && !(f64_below(a, b) && f64_same(a, b))
                &&& zero(a) && zero(b) ==> f64_same(a, b)
                &&& a < sign && b < sign ==> (f64_below(a, b) <==> a < b)
                &&& negative(a) && negative(b) ==> (f64_below(a, b) <==> b < a)
                &&& negative(a) && !negative(b) ==> f64_below(a, b)
                &&& a == b ==> f64_same(a, b)
            }
        }),
{
}

/// A cell that is a number, compared with a number, by the order of floats.
pub proof fn number_cells_compare_as_floats(row: Json, col: Seq<char>, x: Number, y: Number)
    requires
        member(row, col) == Some(Json::Number(x)),
    ensures
        ({
            let holds = |op: Seq<char>| predicate_holds(row, col, op, Json::Number(y));
            let a = float_of(Json::Number(x))->0;
            let b = float_of(Json::Number(y))->0;
            &&& holds("<"@) <==> f64_below(a, b)
            &&& holds(">"@) <==> f64_below(b, a)
            &&& holds("="@) <==> f64_same(a, b)
            &&& holds("=="@) <==> holds("="@)
            &&& holds("!="@) <==> !holds("="@)
            &&& holds("<="@) <==> holds("<"@) || holds("="@)
            &&& holds(">="@) <==> holds(">"@) || holds("="@)
        }),
{
    lemma_op_names();
}

/// Cells that are neither numbers nor texts on both sides meet `=` where they are
/// equal and `!=` where they are not, and are in no order. A row without the column
/// meets nothing.
pub proof fn other_cells_compare_for_equality(row: Json, col: Seq<char>, value: Json)
    ensures
        ({
            let holds = |op: Seq<char>| predicate_holds(row, col, op, value);
            let none = !holds("="@) && !holds("=="@) && !holds("!="@) && !holds("<"@) && !holds(">"@) && !holds("<="@)
                && !holds(">="@);
            match member(row, col) {
                None => none,
                Some(cell) => {
                    &&& holds("="@) <==> holds("=="@)
                    &&& holds("="@) ==> !holds("!="@)
                    &&& cell == Json::Null && value == Json::Null ==> holds("="@)
                    &&& cell is Bool && value is Bool ==> (holds("="@) <==> cell == value) && (holds("!="@) <==> cell
                        != value) && !holds("<"@) && !holds(">"@) && !holds("<="@) && !holds(">="@)
                    &&& !(cell is Number && value is Number) && !(cell is String && value is String) ==> !holds("<"@)
                        && !holds(">"@) && !holds("<="@) && !holds(">="@) && (holds("!="@) <==> !holds("="@)) && (
                    holds("="@) <==> json_same(cell, value))
                },
            }
        }),
{
    lemma_op_names();
}

/// The order of values is that of the numbers or of the texts, and a missing value
/// comes first; turned round, it is the opposite.
pub proof fn values_are_ordered(a: Json, b: Json)
    ensures
        value_order(None, b) == Order::Less,
        a is Number && b is Number ==> (value_order(Some(a), b) == Order::Less <==> f64_below(
            float_of(a)->0,
            float_of(b)->0,
        )) && (value_order(Some(a), b) == Order::Greater <==> f64_below(float_of(b)->0, float_of(a)->0)),
        a is String && b is String ==> (value_order(Some(a), b) == Order::Less <==> exists|k: int|
            #[trigger] parts_below_at(encode_utf8(a->String_0), encode_utf8(b->String_0), k)) && (value_order(
            Some(a),
            b,
        ) == Order::Greater <==> exists|k: int|
            #[trigger] parts_below_at(encode_utf8(b->String_0), encode_utf8(a->String_0), k)),
        value_order(Some(a), b) == Order::Less <==> value_order(Some(b), a) == Order::Greater,
        value_order(Some(a), b) == Order::Equal <==> value_order(Some(b), a) == Order::Equal,
{
    let (p, q) = match (a, b) {
        (Json::String(x), Json::String(y)) => (x, y),
        _ => (crate::json::json_shown(a), crate::json::json_shown(b)),
    };
    texts_compare_one_way(p, q);
    texts_compare_one_way(q, p);
}

/// What the operators of a condition ask of a cell: each is the opposite of another,
/// and they say what they are called.
pub proof fn condition_operators_are_opposites(cell: Option<Json>, target: Json, values: Seq<Json>)
    ensures
        ({
            let holds = |op: Seq<char>| op_condition(cell, op, target);
            let list = Json::Array(values);
            &&& holds("=="@) <==> holds("="@)
            &&& holds("!="@) <==> !holds("="@)
            &&& holds("<>"@) <==> holds("!="@)
            &&& holds("="@) <==> (cell matches Some(x) && json_same(x, target))
            &&& holds("<"@) <==> value_order(cell, target) == Order::Less
            &&& holds(">"@) <==> value_order(cell, target) == Order::Greater
            &&& holds(">="@) <==> !holds("<"@)
            &&& holds("<="@) <==> !holds(">"@)
            &&& op_condition(cell, "in"@, list) <==> (cell matches Some(x) && exists|i: int|
                0 <= i < values.len() && json_same(x, #[trigger] values[i]))
            &&& op_condition(cell, "not in"@, list) <==> !op_condition(cell, "in"@, list)
            &&& holds("is null"@) <==> (cell is None || cell == Some(Json::Null))
            &&& holds("is not null"@) <==> !holds("is null"@)
        }),
{
    lemma_op_names();
    lemma_condition_names();
    if op_condition(cell, "in"@, Json::Array(values)) {
        let i = choose|i: int| 0 <= i < values.len() && crate::predicate::cell_is(cell, #[trigger] values[i]);
        assert(json_same(cell->0, values[i]));
    }
    if cell matches Some(x) && exists|i: int| 0 <= i < values.len() && json_same(x, #[trigger] values[i]) {
        let i = choose|i: int| 0 <= i < values.len() && json_same(cell->0, #[trigger] values[i]);
        assert(crate::predicate::cell_is(cell, values[i]));
    }
}

proof fn lemma_condition_names()
    ensures
        "in"@ != "="@ && "in"@ != "=="@ && "in"@ != "!="@ && "in"@ != "<>"@ && "in"@ != ">"@ && "in"@ != ">="@
            && "in"@ != "<"@ && "in"@ != "<="@,
        "not in"@.len() == 6,
        "is null"@.len() == 7,
        "isnull"@.len() == 6,
        "is not null"@.len() == 11,
        "notnull"@.len() == 7,
        "not in"@ != "isnull"@,
        "in"@.len() == 2,
        "="@.len() == 1 && ">"@.len() == 1 && "<"@.len() == 1,
        "=="@.len() == 2 && "!="@.len() == 2 && "<>"@.len() == 2 && ">="@.len() == 2 && "<="@.len() == 2,
        "is null"@ != "notnull"@,
{
    reveal_strlit("in");
    reveal_strlit("not in");
    reveal_strlit("is null");
    reveal_strlit("isnull");
    reveal_strlit("is not null");
    reveal_strlit("notnull");
    reveal_strlit("=");
    reveal_strlit("==");
    reveal_strlit("!=");
    reveal_strlit("<");
    reveal_strlit(">");
    reveal_strlit("<=");
    reveal_strlit(">=");
    reveal_strlit("<>");
    assert("in"@[0] == 'i');
    assert("=="@[0] == '=' && "!="@[0] == '!' && "<="@[0] == '<' && ">="@[0] == '>' && "<>"@[0] == '<');
    assert("not in"@[0] == 'n' && "isnull"@[0] == 'i' && "is null"@[0] == 'i' && "notnull"@[0] == 'n');
}

/// A condition is a value to equal, null for a cell without a value, an operator with
/// its operand, or a list of conditions that must all hold.
pub proof fn conditions_are_read_by_their_shape(cell: Option<Json>, op: Seq<char>, value: Json, items: Seq<Json>, i: int)
    ensures
        condition_holds(cell, Json::Null) <==> (cell is None || cell == Some(Json::Null)),
        condition_holds(cell, Json::Array(seq![Json::String(op), value])) <==> op_condition(cell, op, value),
        value is Bool || value is Number || value is String ==> (condition_holds(cell, value) <==> (cell matches Some(x)
            && json_same(x, value))),
        condition_holds(cell, Json::Array(Seq::empty())),
        items.len() > 0 && !(items[0] is String) && condition_holds(cell, Json::Array(items)) && 0 <= i < items.len()
            ==> condition_holds(cell, items[i]),
        items.len() > 0 && !(items[0] is String) && (forall|k: int|
            0 <= k < items.len() ==> condition_holds(cell, #[trigger] items[k])) ==> condition_holds(cell, Json::Array(items)),
        condition_holds(cell, Json::Object(seq![("op"@, Json::String(op)), ("value"@, value)])) <==> op_condition(
            cell,
            op,
            value,
        ),
{
    let pair = seq![Json::String(op), value];
    assert(pair[0] == Json::String(op) && pair[1] == value);
    let fields = seq![("op"@, Json::String(op)), ("value"@, value)];
    reveal_strlit("op");
    reveal_strlit("value");
    assert("op"@.len() == 2 && "value"@.len() == 5);
    crate::json::lemma_key_at_is(fields, "op"@, 0);
    crate::json::lemma_key_at_is(fields, "value"@, 1);
    assert(crate::json::member(Json::Object(fields), "op"@) == Some(Json::String(op)));
    assert(crate::json::member(Json::Object(fields), "value"@) == Some(value));
}

/// Rows that meet a filter are those with every condition met by their own cell.
pub proof fn rows_meet_all_conditions(row: Json, conditions: Seq<(Seq<char>, Json)>, i: int)
    ensures
        row_meets(row, conditions) && 0 <= i < conditions.len() ==> condition_holds(
            crate::json::member(row, conditions[i].0),
            conditions[i].1,
        ),
        row is Object && (forall|k: int|
            0 <= k < conditions.len() ==> condition_holds(
                crate::json::member(row, (#[trigger] conditions[k]).0),
                conditions[k].1,
            )) ==> row_meets(row, conditions),
        !(row is Object) ==> !row_meets(row, conditions),
{
}

/// A pattern is held against a text only, and an operator that is not known asks for
/// what no cell meets.
pub proof fn patterns_ask_for_texts(cell: Option<Json>, t: Seq<char>, p: Seq<char>, target: Json, op: Seq<char>)
    ensures
        op_condition(Some(Json::String(t)), "like"@, Json::String(p)) <==> like(t, p),
        op_condition(cell, "like"@, target) ==> target is String && (cell matches Some(x) && x is String),
        op_condition(cell, "isnull"@, target) <==> op_condition(cell, "is null"@, target),
        op_condition(cell, "notnull"@, target) <==> op_condition(cell, "is not null"@, target),
        !op_condition(cell, ""@, target),
{
    lemma_op_names();
    lemma_condition_names();
    reveal_strlit("like");
    reveal_strlit("");
    reveal_strlit("is null");
    reveal_strlit("isnull");
    reveal_strlit("notnull");
    reveal_strlit("is not null");
    reveal_strlit("not in");
    reveal_strlit("in");
    assert("like"@.len() == 4 && ""@.len() == 0);
    assert("isnull"@[0] == 'i' && "not in"@[0] == 'n' && "notnull"@[0] == 'n' && "is null"@[0] == 'i');
}

/// A comparison of a row's cell with an operator that is not known never holds, nor does
/// one of a cell that is not there; `<>` is not known.
pub proof fn unknown_comparisons_never_hold(row: Json, col: Seq<char>, op: Seq<char>, value: Json)
    ensures
        member(row, col) is None ==> !predicate_holds(row, col, op, value),
        op != "="@ && op != "=="@ && op != "!="@ && op != ">"@ && op != ">="@ && op != "<"@ && op != "<="@
            ==> !predicate_holds(row, col, op, value),
        predicate_holds(row, col, "=="@, value) <==> predicate_holds(row, col, "="@, value),
{
    lemma_op_names();
}

} // verus!
