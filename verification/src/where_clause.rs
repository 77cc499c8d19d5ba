//! Simple WHERE clauses: `column operator value`, joined by AND.

use vstd::prelude::*;
use vstd::string::*;
use crate::json::{Json, JsonNumber, JsonValue, Number};
use crate::text::{
    ascii_lowered, char_views, chars_of, copy_chars, find, first_at, int_value, is_text,
    lower_chars, parse_int, push_chars, same_text, text_of, text_range, trim_chars, trimmed,
};

verus! {

/// What a text is as a float.
#[derive(Debug, PartialEq)]
pub enum FloatReading {
    /// No float.
    NotFloat,
    /// A float that JSON cannot write: an infinity or a NaN.
    NoJson,
    /// A float, as its bit pattern and its JSON text.
    Json(u64, String),
}

pub enum ReadingView {
    NotFloat,
    NoJson,
    Json(u64, Seq<char>),
}

impl View for FloatReading {
    type V = ReadingView;

    open spec fn view(&self) -> ReadingView {
        match self {
            FloatReading::NotFloat => ReadingView::NotFloat,
            FloatReading::NoJson => ReadingView::NoJson,
            FloatReading::Json(bits, text) => ReadingView::Json(*bits, text@),
        }
    }
}

/// What texts are as floats. A text that is not listed is none.
pub struct FloatTable {
    pub entries: Vec<(String, FloatReading)>,
}

pub open spec fn reading_in(entries: Seq<(String, FloatReading)>, text: Seq<char>) -> ReadingView
    decreases entries.len(),
{
    if entries.len() == 0 {
        ReadingView::NotFloat
    } else if entries[0].0@ == text {
        entries[0].1@
    } else {
        reading_in(entries.drop_first(), text)
    }
}

/// Two tables of floats tell the same of texts.
pub open spec fn tell_alike(a: FloatTable, b: FloatTable, texts: Seq<Seq<char>>) -> bool {
    forall|i: int| 0 <= i < texts.len() ==> a.reading(#[trigger] texts[i]) == b.reading(texts[i])
}

impl FloatTable {
    pub open spec fn reading(&self, text: Seq<char>) -> ReadingView {
        reading_in(self.entries@, text)
    }

    pub fn read(&self, text: &str) -> (r: FloatReading)
        ensures
            r@ == self.reading(text@),
    {
        let mut i: usize = 0;
        proof {
            assert(self.entries@.skip(0) =~= self.entries@);
        }
        while i < self.entries.len()
            invariant
                i <= self.entries@.len(),
                self.reading(text@) == reading_in(self.entries@.skip(i as int), text@),
            decreases self.entries@.len() - i,
        {
            proof {
                assert(self.entries@.skip(i as int).drop_first() =~= self.entries@.skip(
                    i as int + 1,
                ));
            }
            if same_text(&self.entries[i].0, text) {
                return match &self.entries[i].1 {
                    FloatReading::NotFloat => FloatReading::NotFloat,
                    FloatReading::NoJson => FloatReading::NoJson,
                    FloatReading::Json(bits, t) => FloatReading::Json(
                        *bits,
                        crate::text::copy_text(t),
                    ),
                };
            }
            i = i + 1;
        }
        FloatReading::NotFloat
    }
}

/// Inside which quotes one is after the first `n` characters: single, double.
/// A quote of the other kind inside quotes is an ordinary character.
pub open spec fn quotes_after(s: Seq<char>, n: nat) -> (bool, bool)
    decreases n,
{
    if n == 0 {
        (false, false)
    } else {
        let (single, double) = quotes_after(s, (n - 1) as nat);
        let c = s[n - 1];
        if c == '\'' && !double {
            (!single, double)
        } else if c == '"' && !single {
            (single, !double)
        } else {
            (single, double)
        }
    }
}

pub open spec fn inside_quotes(s: Seq<char>, n: nat) -> bool {
    quotes_after(s, n).0 || quotes_after(s, n).1
}

fn in_quotes(s: &[char], n: usize) -> (r: bool)
    requires
        n <= s@.len(),
    ensures
        r == inside_quotes(s@, n as nat),
{
    let mut single: bool = false;
    let mut double: bool = false;
    let mut i: usize = 0;
    while i < n
        invariant
            i <= n <= s@.len(),
            (single, double) == quotes_after(s@, i as nat),
        decreases n - i,
    {
        let c = s[i];
        if c == '\'' && !double {
            single = !single;
        } else if c == '"' && !single {
            double = !double;
        }
        i = i + 1;
    }
    single || double
}

/// The same on bytes.
pub open spec fn byte_quotes_after(s: Seq<u8>, n: nat) -> (bool, bool)
    decreases n,
{
    if n == 0 {
        (false, false)
    } else {
        let (single, double) = byte_quotes_after(s, (n - 1) as nat);
        let c = s[n - 1];
        if c == 39 && !double {
            (!single, double)
        } else if c == 34 && !single {
            (single, !double)
        } else {
            (single, double)
        }
    }
}

/// Whether the byte at `idx` stands inside quotes.
pub fn is_inside_quotes(s: &str, idx: usize) -> (r: bool)
    requires
        idx <= s.spec_bytes().len(),
    ensures
        r == (byte_quotes_after(s.spec_bytes(), idx as nat).0 || byte_quotes_after(
            s.spec_bytes(),
            idx as nat,
        ).1),
{
    let bytes = s.as_bytes();
    let mut single: bool = false;
    let mut double: bool = false;
    let mut i: usize = 0;
    while i < idx
        invariant
            i <= idx <= bytes@.len(),
            bytes@ == s.spec_bytes(),
            (single, double) == byte_quotes_after(bytes@, i as nat),
        decreases idx - i,
    {
        let c = bytes[i];
        if c == 39 && !double {
            single = !single;
        } else if c == 34 && !single {
            double = !double;
        }
        i = i + 1;
    }
    single || double
}

/// How often a character stands in a text.
pub open spec fn count_of(s: Seq<char>, c: char) -> nat
    decreases s.len(),
{
    if s.len() == 0 {
        0
    } else {
        count_of(s.drop_last(), c) + if s.last() == c {
            1nat
        } else {
            0nat
        }
    }
}

/// Both kinds of quotes are balanced.
pub open spec fn quotes_even(s: Seq<char>) -> bool {
    count_of(s, '\'') % 2 == 0 && count_of(s, '"') % 2 == 0
}

fn balanced(s: &[char], from: usize, to: usize) -> (r: bool)
    requires
        from <= to <= s@.len(),
    ensures
        r == quotes_even(s@.subrange(from as int, to as int)),
{
    let mut single: bool = true;
    let mut double: bool = true;
    let mut i: usize = from;
    let ghost part = s@.subrange(from as int, to as int);
    proof {
        assert(part.take(0) =~= Seq::<char>::empty());
    }
    while i < to
        invariant
            from <= i <= to <= s@.len(),
            part == s@.subrange(from as int, to as int),
            single == (count_of(part.take(i - from), '\'') % 2 == 0),
            double == (count_of(part.take(i - from), '"') % 2 == 0),
        decreases to - i,
    {
        proof {
            assert(part.take(i - from + 1).drop_last() =~= part.take(i - from));
            assert(part.take(i - from + 1).last() == s@[i as int]);
        }
        if s[i] == '\'' {
            single = !single;
        }
        if s[i] == '"' {
            double = !double;
        }
        i = i + 1;
    }
    proof {
        assert(part.take(part.len() as int) =~= part);
    }
    single && double
}

/// An AND, in any case, with a space on either side.
pub open spec fn and_at(s: Seq<char>, i: int) -> bool {
    ascii_lowered(s.subrange(i, i + 5)) == " and "@
}

/// The parts of a clause from `start` on, looking for an AND from `i` on. An
/// AND after unbalanced quotes is no separator.
pub open spec fn and_parts(s: Seq<char>, start: int, i: int) -> Seq<Seq<char>>
    decreases s.len() - i,
{
    if i + 5 > s.len() {
        seq![s.subrange(start, s.len() as int)]
    } else if and_at(s, i) && quotes_even(s.subrange(start, i)) {
        seq![s.subrange(start, i)] + and_parts(s, i + 5, i + 5)
    } else {
        and_parts(s, start, i + 1)
    }
}

fn split_and(s: &[char]) -> (r: Vec<Vec<char>>)
    ensures
        char_views(r@) == and_parts(s@, 0, 0),
{
    let mut out: Vec<Vec<char>> = Vec::new();
    let mut start: usize = 0;
    let mut i: usize = 0;
    let ghost all = and_parts(s@, 0, 0);
    proof {
        assert(char_views(out@) + all =~= all);
    }
    while s.len() - i >= 5
        invariant
            start <= i <= s@.len(),
            all == char_views(out@) + and_parts(s@, start as int, i as int),
        decreases s@.len() - i,
    {
        let window = copy_chars(s, i, i + 5);
        let lowered = lower_chars(&window);
        if is_text(&lowered, " and ") && balanced(s, start, i) {
            let piece = copy_chars(s, start, i);
            let ghost before = char_views(out@);
            let ghost p = piece@;
            out.push(piece);
            proof {
                let rest = and_parts(s@, i + 5, i + 5);
                assert(char_views(out@) =~= before.push(p));
                assert(before + (seq![p] + rest) =~= before.push(p) + rest);
            }
            start = i + 5;
            i = start;
        } else {
            i = i + 1;
        }
    }
    let piece = copy_chars(s, start, s.len());
    let ghost before = char_views(out@);
    let ghost p = piece@;
    out.push(piece);
    proof {
        assert(char_views(out@) =~= before.push(p));
        assert(before + seq![p] =~= before.push(p));
    }
    out
}

/// Where an operator first stands, unless that is inside quotes.
pub open spec fn op_place(s: Seq<char>, op: Seq<char>) -> Option<int> {
    match first_at(s, op, 0) {
        Some(i) => if inside_quotes(s, i as nat) {
            None
        } else {
            Some(i)
        },
        None => None,
    }
}

/// The operator of a predicate and where it stands: the first of the operators,
/// in their order, that has a place.
pub open spec fn found_op(s: Seq<char>) -> Option<(int, Seq<char>)> {
    if op_place(s, "=="@) is Some {
        Some((op_place(s, "=="@)->0, "=="@))
    } else if op_place(s, "!="@) is Some {
        Some((op_place(s, "!="@)->0, "!="@))
    } else if op_place(s, "<="@) is Some {
        Some((op_place(s, "<="@)->0, "<="@))
    } else if op_place(s, ">="@) is Some {
        Some((op_place(s, ">="@)->0, ">="@))
    } else if op_place(s, "<>"@) is Some {
        Some((op_place(s, "<>"@)->0, "<>"@))
    } else if op_place(s, "="@) is Some {
        Some((op_place(s, "="@)->0, "="@))
    } else if op_place(s, "<"@) is Some {
        Some((op_place(s, "<"@)->0, "<"@))
    } else if op_place(s, ">"@) is Some {
        Some((op_place(s, ">"@)->0, ">"@))
    } else {
        None
    }
}

fn place_of_op(s: &[char], op: &str) -> (r: Option<usize>)
    ensures
        match r {
            Some(i) => op_place(s@, op@) == Some(i as int) && i + op@.len() <= s.len(),
            None => op_place(s@, op@) is None,
        },
{
    let o = chars_of(op);
    match find(s, &o, 0) {
        Some(i) => if in_quotes(s, i) {
            None
        } else {
            Some(i)
        },
        None => None,
    }
}

fn find_op<'a>(s: &[char]) -> (r: Option<(usize, &'a str)>)
    ensures
        match r {
            Some((i, op)) => found_op(s@) == Some((i as int, op@)) && i + op@.len() <= s.len(),
            None => found_op(s@) is None,
        },
{
    if let Some(i) = place_of_op(s, "==") {
        return Some((i, "=="));
    }
    if let Some(i) = place_of_op(s, "!=") {
        return Some((i, "!="));
    }
    if let Some(i) = place_of_op(s, "<=") {
        return Some((i, "<="));
    }
    if let Some(i) = place_of_op(s, ">=") {
        return Some((i, ">="));
    }
    if let Some(i) = place_of_op(s, "<>") {
        return Some((i, "<>"));
    }
    if let Some(i) = place_of_op(s, "=") {
        return Some((i, "="));
    }
    if let Some(i) = place_of_op(s, "<") {
        return Some((i, "<"));
    }
    if let Some(i) = place_of_op(s, ">") {
        return Some((i, ">"));
    }
    None
}

/// A text between the same quotes on both sides.
pub open spec fn is_quoted(s: Seq<char>, q: char) -> bool {
    s.len() >= 2 && s[0] == q && s[s.len() - 1] == q
}

/// The value that a trimmed text stands for: a quoted text, a boolean, null, a
/// whole number, a float, else the text itself. There is none in an empty text.
pub open spec fn value_of(s: Seq<char>, reading: ReadingView) -> Option<Json> {
    if s.len() == 0 {
        None
    } else if is_quoted(s, '\'') || is_quoted(s, '"') {
        Some(Json::String(s.subrange(1, s.len() - 1)))
    } else if ascii_lowered(s) == "true"@ {
        Some(Json::Bool(true))
    } else if ascii_lowered(s) == "false"@ {
        Some(Json::Bool(false))
    } else if ascii_lowered(s) == "null"@ {
        Some(Json::Null)
    } else if int_value(s) is Some {
        Some(Json::Number(Number::Int(int_value(s)->0)))
    } else {
        match reading {
            ReadingView::Json(bits, text) => Some(Json::Number(Number::Float(bits, text))),
            _ => Some(Json::String(s)),
        }
    }
}

fn read_value(s: &[char], floats: &FloatTable) -> (r: Option<JsonValue>)
    ensures
        match r {
            Some(v) => value_of(s@, floats.reading(s@)) == Some(v@),
            None => value_of(s@, floats.reading(s@)) is None,
        },
{
    let n: usize = s.len();
    if n == 0 {
        return None;
    }
    if n >= 2 && ((s[0] == '\'' && s[n - 1] == '\'') || (s[0] == '"' && s[n - 1] == '"')) {
        return Some(JsonValue::String(text_range(s, 1, n - 1)));
    }
    let low = lower_chars(s);
    if is_text(&low, "true") {
        return Some(JsonValue::Bool(true));
    }
    if is_text(&low, "false") {
        return Some(JsonValue::Bool(false));
    }
    if is_text(&low, "null") {
        return Some(JsonValue::Null);
    }
    if let Some(i) = parse_int(s) {
        return Some(JsonValue::Number(JsonNumber::Int(i)));
    }
    let text = text_of(s);
    match floats.read(&text) {
        FloatReading::Json(bits, t) => Some(JsonValue::Number(JsonNumber::Float(bits, t))),
        _ => Some(JsonValue::String(text)),
    }
}

/// Reads a value. `floats` tells what texts are as floats.
pub fn parse_value(s: &str, floats: &FloatTable) -> (r: Result<JsonValue, String>)
    ensures
        match r {
            Ok(v) => value_of(trimmed(s@), floats.reading(trimmed(s@))) == Some(v@),
            Err(e) => trimmed(s@).len() == 0 && e@ == "empty value"@,
        },
{
    let chars = chars_of(s);
    let t = trim_chars(&chars);
    match read_value(&t, floats) {
        Some(v) => Ok(v),
        None => Err("empty value".to_owned()),
    }
}

/// A predicate: column, operator, value.
pub struct PredicateView {
    pub col: Seq<char>,
    pub op: Seq<char>,
    pub value: Json,
}

/// `<>` is another way to write `!=`.
pub open spec fn normal_op(op: Seq<char>) -> Seq<char> {
    if op == "<>"@ {
        "!="@
    } else {
        op
    }
}

/// What a predicate's text says, or what is wrong with it.
pub open spec fn predicate_of(s: Seq<char>, floats: FloatTable) -> Result<PredicateView, Seq<char>> {
    match found_op(s) {
        None => Err(
            "invalid predicate '"@ + s + "': expected operator (=, !=, <, <=, >, >=)"@,
        ),
        Some((i, op)) => {
            let col = trimmed(s.subrange(0, i));
            let text = trimmed(s.subrange(i + op.len(), s.len() as int));
            if col.len() == 0 {
                Err("invalid predicate '"@ + s + "': missing column name"@)
            } else {
                match value_of(text, floats.reading(text)) {
                    Some(value) => Ok(PredicateView { col, op: normal_op(op), value }),
                    None => Err("empty value"@),
                }
            }
        },
    }
}

/// The text of a message round a part of the input.
pub fn message(before: &str, part: &[char], after: &str) -> (r: String)
    ensures
        r@ == before@ + part@ + after@,
{
    let mut out = chars_of(before);
    push_chars(&mut out, part);
    let a = chars_of(after);
    push_chars(&mut out, &a);
    text_of(&out)
}

pub open spec fn predicate_view(p: (String, String, JsonValue)) -> PredicateView {
    PredicateView { col: p.0@, op: p.1@, value: p.2@ }
}

fn read_predicate(s: &[char], floats: &FloatTable) -> (r: Result<(String, String, JsonValue), String>)
    ensures
        match r {
            Ok(p) => predicate_of(s@, *floats) == Ok::<PredicateView, Seq<char>>(predicate_view(p)),
            Err(e) => predicate_of(s@, *floats) == Err::<PredicateView, Seq<char>>(e@),
        },
{
    match find_op(s) {
        None => Err(
            message(
                "invalid predicate '",
                s,
                "': expected operator (=, !=, <, <=, >, >=)",
            ),
        ),
        Some((i, op)) => {
            let n_op: usize = chars_of(op).len();
            let left = copy_chars(s, 0, i);
            let right = copy_chars(s, i + n_op, s.len());
            let col = trim_chars(&left);
            let text = trim_chars(&right);
            if col.len() == 0 {
                return Err(message("invalid predicate '", s, "': missing column name"));
            }
            match read_value(&text, floats) {
                Some(value) => {
                    let norm = if same_text(op, "<>") {
                        "!=".to_owned()
                    } else {
                        op.to_owned()
                    };
                    Ok((text_of(&col), norm, value))
                },
                None => Err("empty value".to_owned()),
            }
        },
    }
}

/// Reads one predicate.
pub fn parse_single_predicate(s: &str, floats: &FloatTable) -> (r: Result<
    (String, String, JsonValue),
    String,
>)
    ensures
        match r {
            Ok(p) => predicate_of(s@, *floats) == Ok::<PredicateView, Seq<char>>(predicate_view(p)),
            Err(e) => predicate_of(s@, *floats) == Err::<PredicateView, Seq<char>>(e@),
        },
{
    let chars = chars_of(s);
    read_predicate(&chars, floats)
}

/// The predicates of the first `n` parts, or the first error. Blank parts do
/// not count.
pub open spec fn predicates_of(parts: Seq<Seq<char>>, floats: FloatTable, n: nat) -> Result<
    Seq<PredicateView>,
    Seq<char>,
>
    decreases n,
{
    if n == 0 {
        Ok(Seq::empty())
    } else {
        match predicates_of(parts, floats, (n - 1) as nat) {
            Err(e) => Err(e),
            Ok(prev) => {
                let p = trimmed(parts[n - 1]);
                if p.len() == 0 {
                    Ok(prev)
                } else {
                    match predicate_of(p, floats) {
                        Ok(x) => Ok(prev.push(x)),
                        Err(e) => Err(e),
                    }
                }
            },
        }
    }
}

/// What a clause says, or what is wrong with it.
pub open spec fn clause_of(s: Seq<char>, floats: FloatTable) -> Result<Seq<PredicateView>, Seq<char>> {
    let parts = and_parts(s, 0, 0);
    predicates_of(parts, floats, parts.len())
}

pub open spec fn predicate_views(v: Seq<(String, String, JsonValue)>) -> Seq<PredicateView> {
    Seq::new(v.len(), |i: int| predicate_view(v[i]))
}

/// An error among the first parts is the error of all.
proof fn lemma_first_error(parts: Seq<Seq<char>>, floats: FloatTable, n: nat, m: nat)
    requires
        n <= m,
        predicates_of(parts, floats, n) is Err,
    ensures
        predicates_of(parts, floats, m) == predicates_of(parts, floats, n),
    decreases m,
{
    if n < m {
        lemma_first_error(parts, floats, n, (m - 1) as nat);
    }
}

/// Reads a clause.
pub fn parse_where_clause(s: &str, floats: &FloatTable) -> (r: Result<
    Vec<(String, String, JsonValue)>,
    String,
>)
    ensures
        match r {
            Ok(v) => clause_of(s@, *floats) == Ok::<Seq<PredicateView>, Seq<char>>(
                predicate_views(v@),
            ),
            Err(e) => clause_of(s@, *floats) == Err::<Seq<PredicateView>, Seq<char>>(e@),
        },
{
    let chars = chars_of(s);
    let parts = split_and(&chars);
    let ghost pv = char_views(parts@);
    let mut out: Vec<(String, String, JsonValue)> = Vec::new();
    let mut i: usize = 0;
    proof {
        assert(predicate_views(out@) =~= Seq::<PredicateView>::empty());
    }
    while i < parts.len()
        invariant
            i <= parts@.len(),
            pv == char_views(parts@),
            pv == and_parts(s@, 0, 0),
            predicates_of(pv, *floats, i as nat) == Ok::<Seq<PredicateView>, Seq<char>>(
                predicate_views(out@),
            ),
        decreases parts@.len() - i,
    {
        let p = trim_chars(&parts[i]);
        proof {
            assert(pv[i as int] == parts@[i as int]@);
        }
        if p.len() > 0 {
            match read_predicate(&p, floats) {
                Ok(x) => {
                    let ghost before = predicate_views(out@);
                    out.push(x);
                    proof {
                        assert(predicate_views(out@) =~= before.push(predicate_view(x)));
                    }
                },
                Err(e) => {
                    proof {
                        lemma_first_error(pv, *floats, (i + 1) as nat, pv.len());
                    }
                    return Err(e);
                },
            }
        }
        i = i + 1;
    }
    Ok(out)
}

/// The texts of a clause that stand where values do: what a table of floats
/// has to tell about.
pub fn value_texts(s: &str) -> (r: Vec<String>)
    ensures
        forall|i: int|
            0 <= i < and_parts(s@, 0, 0).len() ==> (found_op(trimmed(#[trigger] and_parts(s@, 0, 0)[i]))
                matches Some((k, op)) ==> exists|j: int|
                0 <= j < r@.len() && (#[trigger] r@[j])@ == trimmed(
                    trimmed(and_parts(s@, 0, 0)[i]).subrange(
                        k + op.len(),
                        trimmed(and_parts(s@, 0, 0)[i]).len() as int,
                    ),
                )),
{
    let chars = chars_of(s);
    let parts = split_and(&chars);
    let ghost pv = char_views(parts@);
    let mut out: Vec<String> = Vec::new();
    let mut i: usize = 0;
    while i < parts.len()
        invariant
            i <= parts@.len(),
            pv == char_views(parts@),
            pv == and_parts(s@, 0, 0),
            forall|m: int|
                0 <= m < i ==> (found_op(trimmed(#[trigger] pv[m])) matches Some((k, op)) ==> exists|
                    j: int,
                |
                    0 <= j < out@.len() && (#[trigger] out@[j])@ == trimmed(
                        trimmed(pv[m]).subrange(k + op.len(), trimmed(pv[m]).len() as int),
                    )),
        decreases parts@.len() - i,
    {
        let p = trim_chars(&parts[i]);
        let ghost before = out@;
        proof {
            assert(pv[i as int] == parts@[i as int]@);
        }
        match find_op(&p) {
            Some((k, op)) => {
                let n_op: usize = chars_of(op).len();
                let right = copy_chars(&p, k + n_op, p.len());
                let text = trim_chars(&right);
                out.push(text_of(&text));
                proof {
                    assert(out@[before.len() as int]@ == text@);
                }
            },
            None => {},
        }
        proof {
            assert forall|m: int| 0 <= m < i + 1 implies (found_op(trimmed(#[trigger] pv[m])) matches Some(
                (k, op),
            ) ==> exists|j: int|
                0 <= j < out@.len() && (#[trigger] out@[j])@ == trimmed(
                    trimmed(pv[m]).subrange(k + op.len(), trimmed(pv[m]).len() as int),
                )) by {
                if m < i && found_op(trimmed(pv[m])) is Some {
                    let (k, op) = found_op(trimmed(pv[m]))->0;
                    let j = choose|j: int|
                        0 <= j < before.len() && (#[trigger] before[j])@ == trimmed(
                            trimmed(pv[m]).subrange(k + op.len(), trimmed(pv[m]).len() as int),
                        );
                    assert(out@[j] == before[j]);
                }
            }
        }
        i = i + 1;
    }
    out
}

} // verus!
