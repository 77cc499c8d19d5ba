//! Predicates: comparisons on columns, cells and rows.

use vstd::prelude::*;
use vstd::string::*;
use crate::bytes::{as_signed, le_at, read_i64};
use crate::float::{f64_below, f64_eq, f64_lt, f64_same};
use crate::json::{
    bool_of, float_of, json_shown, json_eq, json_same, json_text, lemma_array_view, json_views,
    field_views, member, str_of, Json, JsonValue,
};
use crate::text::{chars_of, same_text, text_before, text_lt};

verus! {

/// A comparison.
#[derive(Debug, Clone, Copy, PartialEq, Eq, Structural)]
pub enum Op {
    Eq,
    Ne,
    Gt,
    Ge,
    Lt,
    Le,
    Unknown,
}

/// The comparison that a text stands for.
pub open spec fn op_of(op: Seq<char>) -> Op {
    if op == "="@ || op == "=="@ {
        Op::Eq
    } else if op == "!="@ || op == "<>"@ {
        Op::Ne
    } else if op == ">"@ {
        Op::Gt
    } else if op == ">="@ {
        Op::Ge
    } else if op == "<"@ {
        Op::Lt
    } else if op == "<="@ {
        Op::Le
    } else {
        Op::Unknown
    }
}

pub fn parse_op(op: &str) -> (r: Op)
    ensures
        r == op_of(op@),
{
    if same_text(op, "=") || same_text(op, "==") {
        Op::Eq
    } else if same_text(op, "!=") || same_text(op, "<>") {
        Op::Ne
    } else if same_text(op, ">") {
        Op::Gt
    } else if same_text(op, ">=") {
        Op::Ge
    } else if same_text(op, "<") {
        Op::Lt
    } else if same_text(op, "<=") {
        Op::Le
    } else {
        Op::Unknown
    }
}

/// Whether a comparison of whole numbers holds; an unknown one never does.
pub open spec fn int_holds(op: Op, a: int, b: int) -> bool {
    match op {
        Op::Eq => a == b,
        Op::Ne => a != b,
        Op::Gt => a > b,
        Op::Ge => a >= b,
        Op::Lt => a < b,
        Op::Le => a <= b,
        Op::Unknown => false,
    }
}

/// Whether a comparison of floats holds; an unknown one never does.
pub open spec fn float_holds(op: Op, a: u64, b: u64) -> bool {
    match op {
        Op::Eq => f64_same(a, b),
        Op::Ne => !f64_same(a, b),
        Op::Gt => f64_below(b, a),
        Op::Ge => f64_below(b, a) || f64_same(a, b),
        Op::Lt => f64_below(a, b),
        Op::Le => f64_below(a, b) || f64_same(a, b),
        Op::Unknown => false,
    }
}

/// Whether a comparison of texts holds; an unknown one never does.
pub open spec fn text_holds(op: Op, a: Seq<char>, b: Seq<char>) -> bool {
    match op {
        Op::Eq => a == b,
        Op::Ne => a != b,
        Op::Gt => text_before(b, a),
        Op::Ge => !text_before(a, b),
        Op::Lt => text_before(a, b),
        Op::Le => !text_before(b, a),
        Op::Unknown => false,
    }
}

fn test_int(op: Op, a: i64, b: i64) -> (r: bool)
    ensures
        r == int_holds(op, a as int, b as int),
{
    match op {
        Op::Eq => a == b,
        Op::Ne => a != b,
        Op::Gt => a > b,
        Op::Ge => a >= b,
        Op::Lt => a < b,
        Op::Le => a <= b,
        Op::Unknown => false,
    }
}

fn test_float(op: Op, a: u64, b: u64) -> (r: bool)
    ensures
        r == float_holds(op, a, b),
{
    match op {
        Op::Eq => f64_eq(a, b),
        Op::Ne => !f64_eq(a, b),
        Op::Gt => f64_lt(b, a),
        Op::Ge => f64_lt(b, a) || f64_eq(a, b),
        Op::Lt => f64_lt(a, b),
        Op::Le => f64_lt(a, b) || f64_eq(a, b),
        Op::Unknown => false,
    }
}

fn test_text(op: Op, a: &str, b: &str) -> (r: bool)
    ensures
        r == text_holds(op, a@, b@),
{
    match op {
        Op::Eq => same_text(a, b),
        Op::Ne => !same_text(a, b),
        Op::Gt => text_lt(b, a),
        Op::Ge => !text_lt(a, b),
        Op::Lt => text_lt(a, b),
        Op::Le => !text_lt(b, a),
        Op::Unknown => false,
    }
}

/// Marks the numbers that equal a value.
pub fn filter_eq_i64(data: &[i64], value: i64) -> (r: Vec<bool>)
    ensures
        r@ == Seq::new(data@.len(), |i: int| data@[i] == value),
        r@ == ints_marked(Op::Eq, data@, value),
{
    let mut out: Vec<bool> = Vec::with_capacity(data.len());
    let mut i: usize = 0;
    while i < data.len()
        invariant
            i <= data@.len(),
            out@ == Seq::new(i as nat, |k: int| data@[k] == value),
        decreases data@.len() - i,
    {
        out.push(data[i] == value);
        i = i + 1;
        proof {
            assert(out@ =~= Seq::new(i as nat, |k: int| data@[k] == value));
        }
    }
    out
}

/// For each number, whether the comparison with a value holds.
pub open spec fn ints_marked(op: Op, data: Seq<i64>, value: i64) -> Seq<bool> {
    Seq::new(data.len(), |i: int| int_holds(op, data[i] as int, value as int))
}

/// Marks the numbers for which a comparison with a value holds.
pub fn filter_cmp_i64(data: &[i64], op: &str, value: i64) -> (r: Vec<bool>)
    ensures
        r@ == ints_marked(op_of(op@), data@, value),
{
    filter_op_i64(data, parse_op(op), value)
}

/// Marks the numbers for which a comparison with a value holds.
pub fn filter_op_i64(data: &[i64], op: Op, value: i64) -> (r: Vec<bool>)
    ensures
        r@ == ints_marked(op, data@, value),
{
    let mut out: Vec<bool> = Vec::with_capacity(data.len());
    let mut i: usize = 0;
    while i < data.len()
        invariant
            i <= data@.len(),
            out@ == Seq::new(i as nat, |k: int| int_holds(op, data@[k] as int, value as int)),
        decreases data@.len() - i,
    {
        out.push(test_int(op, data[i], value));
        i = i + 1;
        proof {
            assert(out@ =~= Seq::new(
                i as nat,
                |k: int| int_holds(op, data@[k] as int, value as int),
            ));
        }
    }
    out
}

/// Marks the numbers from `value_min` to `value_max`, both included.
pub fn filter_range_i64(data: &[i64], value_min: i64, value_max: i64) -> (r: Vec<bool>)
    ensures
        r@ == Seq::new(data@.len(), |i: int| value_min <= data@[i] <= value_max),
        forall|i: int|
            0 <= i < r@.len() ==> (#[trigger] r@[i] <==> ints_marked(Op::Ge, data@, value_min)[i] && ints_marked(
                Op::Le,
                data@,
                value_max,
            )[i]),
{
    let mut out: Vec<bool> = Vec::with_capacity(data.len());
    let mut i: usize = 0;
    while i < data.len()
        invariant
            i <= data@.len(),
            out@ == Seq::new(i as nat, |k: int| value_min <= data@[k] <= value_max),
        decreases data@.len() - i,
    {
        out.push(data[i] >= value_min && data[i] <= value_max);
        i = i + 1;
        proof {
            assert(out@ =~= Seq::new(i as nat, |k: int| value_min <= data@[k] <= value_max));
        }
    }
    out
}

/// Marks the floats for which a comparison with a value holds.
pub fn filter_cmp_f64(data: &[u64], op: &str, value: u64) -> (r: Vec<bool>)
    ensures
        r@ == Seq::new(data@.len(), |i: int| float_holds(op_of(op@), data@[i], value)),
{
    let kind = parse_op(op);
    let mut out: Vec<bool> = Vec::with_capacity(data.len());
    let mut i: usize = 0;
    while i < data.len()
        invariant
            i <= data@.len(),
            kind == op_of(op@),
            out@.len() == i,
            forall|k: int| 0 <= k < i ==> #[trigger] out@[k] == float_holds(kind, data@[k], value),
        decreases data@.len() - i,
    {
        out.push(test_float(kind, data[i], value));
        i = i + 1;
    }
    proof {
        assert(out@ =~= Seq::new(data@.len(), |i: int| float_holds(op_of(op@), data@[i], value)));
    }
    out
}

/// Marks the floats from `value_min` to `value_max`, both included.
pub fn filter_range_f64(data: &[u64], value_min: u64, value_max: u64) -> (r: Vec<bool>)
    ensures
        r@ == Seq::new(
            data@.len(),
            |i: int|
                float_holds(Op::Ge, data@[i], value_min) && float_holds(Op::Le, data@[i], value_max),
        ),
{
    let mut out: Vec<bool> = Vec::with_capacity(data.len());
    let mut i: usize = 0;
    let ghost want = Seq::new(
        data@.len(),
        |i: int|
            float_holds(Op::Ge, data@[i], value_min) && float_holds(Op::Le, data@[i], value_max),
    );
    while i < data.len()
        invariant
            i <= data@.len(),
            out@.len() == i,
            want == Seq::new(
                data@.len(),
                |i: int|
                    float_holds(Op::Ge, data@[i], value_min) && float_holds(
                        Op::Le,
                        data@[i],
                        value_max,
                    ),
            ),
            forall|k: int| 0 <= k < i ==> #[trigger] out@[k] == want[k],
        decreases data@.len() - i,
    {
        out.push(
            test_float(Op::Ge, data[i], value_min) && test_float(Op::Le, data[i], value_max),
        );
        i = i + 1;
    }
    proof {
        assert(out@ =~= want);
    }
    out
}

/// A range filter marks what the two comparisons mark.
pub proof fn range_is_two_comparisons(x: i64, lo: i64, hi: i64)
    ensures
        (lo <= x <= hi) == (int_holds(Op::Ge, x as int, lo as int) && int_holds(
            Op::Le,
            x as int,
            hi as int,
        )),
{
}

/// On a cell, an unknown comparison holds.
pub fn apply_op_i64(cell: i64, op: &str, target: i64) -> (r: bool)
    ensures
        r == (op_of(op@) == Op::Unknown || int_holds(op_of(op@), cell as int, target as int)),
{
    let kind = parse_op(op);
    kind == Op::Unknown || test_int(kind, cell, target)
}

/// On a cell, an unknown comparison holds.
pub fn apply_op_f64(cell: u64, op: &str, target: u64) -> (r: bool)
    ensures
        r == (op_of(op@) == Op::Unknown || float_holds(op_of(op@), cell, target)),
{
    let kind = parse_op(op);
    kind == Op::Unknown || test_float(kind, cell, target)
}

/// Whether the values from `lo` to `hi` hold none that the comparison with
/// `value` accepts, as far as the bounds tell.
pub open spec fn bounds_exclude(op: Op, lo: int, hi: int, value: int) -> bool {
    match op {
        Op::Eq => value < lo || value > hi,
        Op::Lt => lo >= value,
        Op::Le => lo > value,
        Op::Gt => hi <= value,
        Op::Ge => hi < value,
        _ => false,
    }
}

/// Whether a row group can be skipped: its stats show that no value of the
/// column can meet the comparison. Without both bounds it cannot.
pub fn can_prune_row_group(min: Option<&[u8]>, max: Option<&[u8]>, op: &str, value: i64) -> (r: bool)
    ensures
        r == (match (min, max) {
            (Some(a), Some(b)) => a@.len() >= 8 && b@.len() >= 8 && bounds_exclude(
                op_of(op@),
                as_signed(le_at(a@, 0, 8)) as int,
                as_signed(le_at(b@, 0, 8)) as int,
                value as int,
            ),
            _ => false,
        }),
{
    match (min, max) {
        (Some(a), Some(b)) => {
            if a.len() < 8 || b.len() < 8 {
                return false;
            }
            let lo: i64 = read_i64(a, 0);
            let hi: i64 = read_i64(b, 0);
            match parse_op(op) {
                Op::Eq => value < lo || value > hi,
                Op::Lt => lo >= value,
                Op::Le => lo > value,
                Op::Gt => hi <= value,
                Op::Ge => hi < value,
                _ => false,
            }
        },
        _ => false,
    }
}

/// A skipped row group holds no row that the comparison accepts.
pub proof fn pruning_loses_nothing(op: Op, lo: int, hi: int, value: int, x: int)
    requires
        lo <= x <= hi,
        bounds_exclude(op, lo, hi, value),
    ensures
        !int_holds(op, x, value),
{
}

/// SQL LIKE: `%` stands for any run of characters, `_` for any one character.
pub open spec fn like(text: Seq<char>, pattern: Seq<char>) -> bool
    decreases pattern.len(), text.len(),
{
    if pattern.len() == 0 {
        text.len() == 0
    } else if pattern[0] == '%' {
        like(text, pattern.drop_first()) || (text.len() > 0 && like(text.drop_first(), pattern))
    } else {
        text.len() > 0 && (pattern[0] == '_' || text[0] == pattern[0]) && like(
            text.drop_first(),
            pattern.drop_first(),
        )
    }
}

/// Matches a text against a LIKE pattern.
pub fn like_match(text: &str, pattern: &str) -> (r: bool)
    ensures
        r == like(text@, pattern@),
{
    let t = chars_of(text);
    let p = chars_of(pattern);
    like_match_helper(&t, &p)
}

/// Works backwards over the pattern: for each of its ends, which ends of the
/// text it matches.
pub fn like_match_helper(text: &[char], pattern: &[char]) -> (r: bool)
    ensures
        r == like(text@, pattern@),
{
    let n: usize = text.len();
    let mut rest: Vec<bool> = Vec::new();
    let mut j: usize = 0;
    while j < n
        invariant
            j <= n == text@.len(),
            rest@.len() == j,
            forall|k: int| 0 <= k < j ==> !(#[trigger] rest@[k]),
        decreases n - j,
    {
        rest.push(false);
        j = j + 1;
    }
    rest.push(true);
    let total: usize = rest.len();
    let mut k: usize = pattern.len();
    proof {
        assert(pattern@.skip(k as int) =~= Seq::<char>::empty());
        assert forall|i: int| 0 <= i <= n implies #[trigger] rest@[i] == like(
            text@.skip(i),
            pattern@.skip(k as int),
        ) by {}
    }
    while k > 0
        invariant
            k <= pattern@.len(),
            n == text@.len(),
            total == n + 1,
            rest@.len() == n + 1,
            forall|i: int|
                0 <= i <= n ==> #[trigger] rest@[i] == like(text@.skip(i), pattern@.skip(k as int)),
        decreases k,
    {
        let c = pattern[k - 1];
        let ghost p = pattern@.skip(k as int - 1);
        proof {
            assert(p.drop_first() =~= pattern@.skip(k as int));
            assert(p[0] == c);
        }
        let mut cur: Vec<bool> = Vec::new();
        let mut fill: usize = 0;
        while fill < total
            invariant
                fill <= total,
                cur@.len() == fill,
            decreases total - fill,
        {
            cur.push(false);
            fill = fill + 1;
        }
        let mut m: usize = total;
        while m > 0
            invariant
                m <= n + 1,
                n == text@.len(),
                1 <= k <= pattern@.len(),
                p == pattern@.skip(k as int - 1),
                p.drop_first() == pattern@.skip(k as int),
                p.len() > 0,
                p[0] == c,
                cur@.len() == n + 1,
                rest@.len() == n + 1,
                forall|i: int|
                    0 <= i <= n ==> #[trigger] rest@[i] == like(
                        text@.skip(i),
                        pattern@.skip(k as int),
                    ),
                forall|i: int| m <= i <= n ==> #[trigger] cur@[i] == like(text@.skip(i), p),
            decreases m,
        {
            let i: usize = m - 1;
            let ghost t = text@.skip(i as int);
            proof {
                if i < n {
                    assert(t.drop_first() =~= text@.skip(i as int + 1));
                    assert(t[0] == text@[i as int]);
                }
                assert(t.len() == n - i);
            }
            let v: bool = if c == '%' {
                rest[i] || (i < n && cur[i + 1])
            } else {
                i < n && (c == '_' || text[i] == c) && rest[i + 1]
            };
            cur[i] = v;
            proof {
                assert(v == like(t, p));
            }
            m = i;
        }
        rest = cur;
        k = k - 1;
    }
    proof {
        assert(text@.skip(0) =~= text@);
        assert(pattern@.skip(0) =~= pattern@);
    }
    rest[0]
}

/// `%` alone matches every text.
pub proof fn like_percent_matches_all(text: Seq<char>)
    ensures
        like(text, seq!['%']),
    decreases text.len(),
{
    reveal_with_fuel(like, 3);
    let p = seq!['%'];
    assert(p.drop_first() =~= Seq::<char>::empty());
    if text.len() > 0 {
        like_percent_matches_all(text.drop_first());
    }
}

/// A pattern without `%` and `_` matches the text that it spells, and no other.
pub proof fn like_without_wildcards(text: Seq<char>, pattern: Seq<char>)
    requires
        forall|i: int| 0 <= i < pattern.len() ==> (#[trigger] pattern[i]) != '%' && pattern[i] != '_',
    ensures
        like(text, pattern) == (text == pattern),
    decreases pattern.len(),
{
    if pattern.len() > 0 && text.len() > 0 {
        like_without_wildcards(text.drop_first(), pattern.drop_first());
        assert(text =~= seq![text[0]] + text.drop_first());
        assert(pattern =~= seq![pattern[0]] + pattern.drop_first());
        if text[0] == pattern[0] && text.drop_first() == pattern.drop_first() {
            assert(text == pattern);
        }
    } else if text.len() == 0 && pattern.len() == 0 {
        assert(text =~= pattern);
    }
}

/// How one value stands to another.
#[derive(Debug, Clone, Copy, PartialEq, Eq, Structural)]
pub enum Order {
    Less,
    Equal,
    Greater,
}

pub open spec fn text_order(a: Seq<char>, b: Seq<char>) -> Order {
    if text_before(a, b) {
        Order::Less
    } else if text_before(b, a) {
        Order::Greater
    } else {
        Order::Equal
    }
}

/// Numbers are compared as floats, texts as texts, anything else by its JSON
/// text. A missing value is less than any.
pub open spec fn value_order(a: Option<Json>, b: Json) -> Order {
    match a {
        None => Order::Less,
        Some(x) => match (float_of(x), float_of(b), str_of(x), str_of(b)) {
            (Some(p), Some(q), _, _) => if f64_below(p, q) {
                Order::Less
            } else if f64_below(q, p) {
                Order::Greater
            } else {
                Order::Equal
            },
            (_, _, Some(s), Some(t)) => text_order(s, t),
            _ => text_order(json_shown(x), json_shown(b)),
        },
    }
}

fn order_texts(a: &str, b: &str) -> (r: Order)
    ensures
        r == text_order(a@, b@),
{
    if text_lt(a, b) {
        Order::Less
    } else if text_lt(b, a) {
        Order::Greater
    } else {
        Order::Equal
    }
}

pub open spec fn cell_view(cell: Option<&JsonValue>) -> Option<Json> {
    match cell {
        Some(v) => Some(v@),
        None => None,
    }
}

/// Compares a cell with a value.
pub fn cmp_values(a: Option<&JsonValue>, b: &JsonValue) -> (r: Order)
    ensures
        r == value_order(cell_view(a), b@),
{
    match a {
        None => Order::Less,
        Some(x) => {
            if let (Some(p), Some(q)) = (x.as_float(), b.as_float()) {
                if f64_lt(p, q) {
                    return Order::Less;
                }
                if f64_lt(q, p) {
                    return Order::Greater;
                }
                return Order::Equal;
            }
            if let (Some(s), Some(t)) = (x.as_str(), b.as_str()) {
                return order_texts(s, t);
            }
            let s = json_text(x);
            let t = json_text(b);
            order_texts(&s, &t)
        },
    }
}

/// A cell is there and equals a value.
pub open spec fn cell_is(cell: Option<Json>, v: Json) -> bool {
    match cell {
        Some(x) => json_same(x, v),
        None => false,
    }
}

fn cell_equals(cell: Option<&JsonValue>, v: &JsonValue) -> (r: bool)
    ensures
        r == cell_is(cell_view(cell), v@),
{
    match cell {
        Some(x) => json_eq(x, v),
        None => false,
    }
}

/// The cell equals one of the values.
pub open spec fn cell_in(cell: Option<Json>, values: Seq<Json>) -> bool {
    exists|i: int| 0 <= i < values.len() && cell_is(cell, #[trigger] values[i])
}

fn cell_among(cell: Option<&JsonValue>, values: &Vec<JsonValue>) -> (r: bool)
    ensures
        r == cell_in(cell_view(cell), json_views(values@)),
{
    let ghost all = json_views(values@);
    let mut i: usize = 0;
    while i < values.len()
        invariant
            i <= values@.len(),
            all == json_views(values@),
            forall|k: int| 0 <= k < i ==> !cell_is(cell_view(cell), #[trigger] all[k]),
        decreases values@.len() - i,
    {
        if cell_equals(cell, &values[i]) {
            proof {
                assert(cell_is(cell_view(cell), all[i as int]));
            }
            return true;
        }
        proof {
            assert(!cell_is(cell_view(cell), all[i as int]));
        }
        i = i + 1;
    }
    false
}

/// A cell that is missing or null.
pub open spec fn cell_is_null(cell: Option<Json>) -> bool {
    cell is None || cell == Some(Json::Null)
}

/// Whether a cell meets an operator with its operand.
pub open spec fn op_condition(cell: Option<Json>, op: Seq<char>, target: Json) -> bool {
    if op == "="@ || op == "=="@ {
        cell_is(cell, target)
    } else if op == "!="@ || op == "<>"@ {
        !cell_is(cell, target)
    } else if op == ">"@ {
        value_order(cell, target) == Order::Greater
    } else if op == ">="@ {
        value_order(cell, target) != Order::Less
    } else if op == "<"@ {
        value_order(cell, target) == Order::Less
    } else if op == "<="@ {
        value_order(cell, target) != Order::Greater
    } else if op == "in"@ {
        match target {
            Json::Array(values) => cell_in(cell, values),
            _ => false,
        }
    } else if op == "not in"@ {
        match target {
            Json::Array(values) => !cell_in(cell, values),
            _ => true,
        }
    } else if op == "is null"@ || op == "isnull"@ {
        cell_is_null(cell)
    } else if op == "is not null"@ || op == "notnull"@ {
        !cell_is_null(cell)
    } else if op == "like"@ {
        match (cell, target) {
            (Some(Json::String(text)), Json::String(pattern)) => like(text, pattern),
            _ => false,
        }
    } else {
        false
    }
}

/// Whether a cell meets an operator and its operand, given as a pair of values.
pub open spec fn pair_condition(cell: Option<Json>, op_val: Seq<Json>) -> bool {
    op_val.len() >= 2 && match op_val[0] {
        Json::String(op) => op_condition(cell, op, op_val[1]),
        _ => false,
    }
}

fn test_condition(cell: Option<&JsonValue>, op: &str, target: &JsonValue) -> (r: bool)
    ensures
        r == op_condition(cell_view(cell), op@, target@),
{
    if same_text(op, "=") || same_text(op, "==") {
        cell_equals(cell, target)
    } else if same_text(op, "!=") || same_text(op, "<>") {
        !cell_equals(cell, target)
    } else if same_text(op, ">") {
        cmp_values(cell, target) == Order::Greater
    } else if same_text(op, ">=") {
        cmp_values(cell, target) != Order::Less
    } else if same_text(op, "<") {
        cmp_values(cell, target) == Order::Less
    } else if same_text(op, "<=") {
        cmp_values(cell, target) != Order::Greater
    } else if same_text(op, "in") {
        match target {
            JsonValue::Array(values) => {
                proof {
                    lemma_array_view(*values);
                }
                cell_among(cell, values)
            },
            _ => false,
        }
    } else if same_text(op, "not in") {
        match target {
            JsonValue::Array(values) => {
                proof {
                    lemma_array_view(*values);
                }
                !cell_among(cell, values)
            },
            _ => true,
        }
    } else if same_text(op, "is null") || same_text(op, "isnull") {
        null_cell(cell)
    } else if same_text(op, "is not null") || same_text(op, "notnull") {
        !null_cell(cell)
    } else if same_text(op, "like") {
        match (cell, target) {
            (Some(JsonValue::String(text)), JsonValue::String(pattern)) => like_match(
                text,
                pattern,
            ),
            _ => false,
        }
    } else {
        false
    }
}

fn null_cell(cell: Option<&JsonValue>) -> (r: bool)
    ensures
        r == cell_is_null(cell_view(cell)),
{
    match cell {
        None => true,
        Some(v) => v.is_null(),
    }
}

/// Evaluates an operator and its operand, given as a pair of values.
pub fn eval_op_condition(cell: Option<&JsonValue>, op_val: &[JsonValue]) -> (r: bool)
    ensures
        r == pair_condition(cell_view(cell), json_views(op_val@)),
{
    if op_val.len() < 2 {
        return false;
    }
    proof {
        assert(json_views(op_val@)[0] == op_val@[0]@);
        assert(json_views(op_val@)[1] == op_val@[1]@);
    }
    match &op_val[0] {
        JsonValue::String(op) => test_condition(cell, op, &op_val[1]),
        _ => false,
    }
}

/// Whether a cell meets a condition: a bare value for equality, null for a
/// missing or null cell, a list of an operator and its operand, a list of
/// conditions that must all hold, or an object with `op` and `value`.
pub open spec fn condition_holds(cell: Option<Json>, condition: Json) -> bool
    decreases condition,
{
    match condition {
        Json::Null => cell_is_null(cell),
        Json::Array(items) => if items.len() == 0 {
            true
        } else if items[0] is String {
            pair_condition(cell, items)
        } else {
            forall|i: int| 0 <= i < items.len() ==> condition_holds(cell, #[trigger] items[i])
        },
        Json::Object(_) => match (member(condition, "op"@), member(condition, "value"@)) {
            (Some(Json::String(op)), Some(v)) => op_condition(cell, op, v),
            _ => false,
        },
        _ => cell_is(cell, condition),
    }
}

/// Evaluates a condition on a cell.
pub fn eval_condition(cell: Option<&JsonValue>, condition: &JsonValue) -> (r: bool)
    ensures
        r == condition_holds(cell_view(cell), condition@),
    decreases condition,
{
    match condition {
        JsonValue::Null => null_cell(cell),
        JsonValue::Array(items) => {
            proof {
                lemma_array_view(*items);
            }
            if items.len() == 0 {
                return true;
            }
            let ghost all = json_views(items@);
            proof {
                assert(all[0] == items@[0]@);
            }
            if items[0].as_str().is_some() {
                return eval_op_condition(cell, items);
            }
            let mut i: usize = 0;
            while i < items.len()
                invariant
                    i <= items@.len(),
                    items@.len() > 0,
                    condition is Array,
                    condition->Array_0 == *items,
                    all == json_views(items@),
                    condition@ == Json::Array(all),
                    !(all[0] is String),
                    forall|k: int|
                        0 <= k < i ==> condition_holds(cell_view(cell), #[trigger] all[k]),
                decreases items@.len() - i,
            {
                if !eval_condition(cell, &items[i]) {
                    proof {
                        assert(!condition_holds(cell_view(cell), all[i as int]));
                    }
                    return false;
                }
                proof {
                    assert(condition_holds(cell_view(cell), all[i as int]));
                }
                i = i + 1;
            }
            true
        },
        JsonValue::Object(_) => {
            match (condition.get("op"), condition.get("value")) {
                (Some(JsonValue::String(op)), Some(v)) => test_condition(cell, op, v),
                _ => false,
            }
        },
        _ => cell_equals(cell, condition),
    }
}

/// Whether a row meets the conditions on all the columns named. Only an object
/// is a row.
pub open spec fn row_meets(row: Json, conditions: Seq<(Seq<char>, Json)>) -> bool {
    row is Object && forall|i: int|
        0 <= i < conditions.len() ==> condition_holds(
            member(row, (#[trigger] conditions[i]).0),
            conditions[i].1,
        )
}

/// Evaluates the conditions on a row.
pub fn row_matches_where(row: &JsonValue, conditions: &Vec<(String, JsonValue)>) -> (r: bool)
    ensures
        r == row_meets(row@, field_views(conditions@)),
{
    match row {
        JsonValue::Object(_) => {},
        _ => {
            return false;
        },
    }
    let ghost all = field_views(conditions@);
    let mut i: usize = 0;
    while i < conditions.len()
        invariant
            i <= conditions@.len(),
            row@ is Object,
            all == field_views(conditions@),
            forall|k: int|
                0 <= k < i ==> condition_holds(member(row@, (#[trigger] all[k]).0), all[k].1),
        decreases conditions@.len() - i,
    {
        let cell = row.get(&conditions[i].0);
        let ok = eval_condition(cell, &conditions[i].1);
        proof {
            assert(ok == condition_holds(member(row@, all[i as int].0), all[i as int].1));
        }
        if !ok {
            return false;
        }
        i = i + 1;
    }
    true
}

/// Whether a row's cell stands to a value as the operator says: numbers as
/// floats, texts as texts; booleans and anything else only for equality. A
/// row without the column never does.
pub open spec fn predicate_holds(row: Json, col: Seq<char>, op: Seq<char>, value: Json) -> bool {
    let kind = if op == "<>"@ {
        Op::Unknown
    } else {
        op_of(op)
    };
    match member(row, col) {
        None => false,
        Some(cell) => match (
            float_of(cell),
            float_of(value),
            str_of(cell),
            str_of(value),
            bool_of(cell),
            bool_of(value),
        ) {
            (Some(a), Some(b), _, _, _, _) => float_holds(kind, a, b),
            (_, _, Some(a), Some(b), _, _) => text_holds(kind, a, b),
            (_, _, _, _, Some(a), Some(b)) => match kind {
                Op::Eq => a == b,
                Op::Ne => a != b,
                _ => false,
            },
            _ => match kind {
                Op::Eq => json_same(cell, value),
                Op::Ne => !json_same(cell, value),
                _ => false,
            },
        },
    }
}

/// Evaluates a predicate on a row.
pub fn eval_predicate(row: &JsonValue, col: &str, op: &str, value: &JsonValue) -> (r: bool)
    ensures
        r == predicate_holds(row@, col@, op@, value@),
{
    let cell = match row.get(col) {
        Some(v) => v,
        None => {
            return false;
        },
    };
    let kind = if same_text(op, "<>") {
        Op::Unknown
    } else {
        parse_op(op)
    };
    if let (Some(a), Some(b)) = (cell.as_float(), value.as_float()) {
        return test_float(kind, a, b);
    }
    if let (Some(a), Some(b)) = (cell.as_str(), value.as_str()) {
        return test_text(kind, a, b);
    }
    if let (Some(a), Some(b)) = (cell.as_bool(), value.as_bool()) {
        return match kind {
            Op::Eq => a == b,
            Op::Ne => a != b,
            _ => false,
        };
    }
    match kind {
        Op::Eq => json_eq(cell, value),
        Op::Ne => !json_eq(cell, value),
        _ => false,
    }
}

} // verus!
