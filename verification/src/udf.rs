//! Calls of registered functions in a statement: each is replaced by a
//! comparison with a marker column, and listed with its arguments.

use vstd::prelude::*;
use vstd::string::*;
use vstd::utf8::encode_utf8;
use crate::json::{copy_json, json_views, member, Json, JsonValue};
use crate::names::{ascending, insert_sorted};
use crate::text::{char_views, chars_of, copy_chars, copy_text, decimal, find, first_at, lemma_bytes_order_total,
    occurs_at, push_chars, same_text, split, split_chars, text_before, text_of, text_views, trim_chars, trimmed,
    write_decimal};
use crate::where_clause::count_of;

verus! {

/// Whether a character is a letter or a digit of any script.
pub uninterp spec fn is_alphanumeric(c: char) -> bool;

/// `char::is_alphanumeric`: by the Unicode properties Alphabetic and Numeric,
/// which are named and not written out. Of the ASCII characters these are the
/// letters and the digits.
#[verifier::external_body]
pub(crate) fn alphanumeric(c: char) -> (r: bool)
    ensures
        r == is_alphanumeric(c),
        (c as u32) < 128 ==> r == (('a' <= c && c <= 'z') || ('A' <= c && c <= 'Z') || ('0' <= c && c
            <= '9')),
{
    c.is_alphanumeric()
}

/// A letter or a digit. Of the ASCII characters these are known.
pub open spec fn alnum(c: char) -> bool {
    if (c as u32) < 128 {
        ('a' <= c && c <= 'z') || ('A' <= c && c <= 'Z') || ('0' <= c && c <= '9')
    } else {
        is_alphanumeric(c)
    }
}

/// A character that continues a name.
pub open spec fn is_word_char(c: char) -> bool {
    alnum(c) || c == '_'
}

/// What a call of a function starts with.
pub open spec fn call_head(name: Seq<char>) -> Seq<char> {
    name.push('(')
}

/// Where a call first stands, from `from` on: not in the middle of a longer
/// name.
pub open spec fn call_at(s: Seq<char>, head: Seq<char>, from: int) -> Option<int>
    decreases s.len() - from,
{
    match first_at(s, head, from) {
        Some(p) if from <= p && p + head.len() <= s.len() && head.len() > 0 => if p == 0
            || !is_word_char(s[p - 1]) {
            Some(p)
        } else {
            call_at(s, head, (p + head.len()) as int)
        },
        _ => None,
    }
}

/// Where the bracket closes that `depth` open ones before `i` wait for.
pub open spec fn closing_at(s: Seq<char>, i: int, depth: int) -> Option<int>
    decreases s.len() - i,
{
    if i >= s.len() {
        None
    } else {
        let d = if s[i] == '(' {
            depth + 1
        } else if s[i] == ')' {
            depth - 1
        } else {
            depth
        };
        if d == 0 {
            Some(i)
        } else {
            closing_at(s, i + 1, d)
        }
    }
}

/// The arguments of a call: the parts between commas, trimmed, without empty
/// ones.
pub open spec fn call_args(parts: Seq<Seq<char>>) -> Seq<Seq<char>>
    decreases parts.len(),
{
    if parts.len() == 0 {
        Seq::empty()
    } else {
        let prev = call_args(parts.drop_last());
        let a = trimmed(parts.last());
        if a.len() == 0 {
            prev
        } else {
            prev.push(a)
        }
    }
}

/// What a call is replaced by.
pub open spec fn marker(k: nat) -> Seq<char> {
    "_udf_marker_"@ + decimal(k) + " = 1"@
}

/// A call: the function's name and its arguments.
pub struct Call {
    pub name: Seq<char>,
    pub args: Seq<Seq<char>>,
}

/// The statement after the first call of a function has been replaced, and that
/// call's arguments. There is none where no call stands or its bracket does not
/// close.
pub open spec fn one_call(s: Seq<char>, name: Seq<char>, k: nat) -> Option<(Seq<char>, Seq<Seq<char>>)> {
    let head = call_head(name);
    match call_at(s, head, 0) {
        None => None,
        Some(p) => match closing_at(s, (p + head.len()) as int, 1) {
            None => None,
            Some(e) => Some(
                (
                    s.subrange(0, p) + marker(k) + s.subrange(e + 1, s.len() as int),
                    call_args(split(s.subrange((p + head.len()) as int, e), ',')),
                ),
            ),
        },
    }
}

/// All calls of one function, the first numbered `k`.
pub open spec fn calls_of(s: Seq<char>, name: Seq<char>, k: nat) -> (Seq<char>, Seq<Call>)
    decreases count_of(s, '('),
{
    match one_call(s, name, k) {
        Some((next, args)) if count_of(next, '(') < count_of(s, '(') => {
            let rest = calls_of(next, name, k + 1);
            (rest.0, seq![Call { name, args }] + rest.1)
        },
        _ => (s, Seq::empty()),
    }
}

/// All calls of the functions, one function after the other.
pub open spec fn extracted(s: Seq<char>, names: Seq<Seq<char>>) -> (Seq<char>, Seq<Call>)
    decreases names.len(),
{
    if names.len() == 0 {
        (s, Seq::empty())
    } else {
        let prev = extracted(s, names.drop_last());
        let more = calls_of(prev.0, names.last(), prev.1.len());
        (more.0, prev.1 + more.1)
    }
}

pub open spec fn call_views(v: Seq<(String, Vec<String>)>) -> Seq<Call> {
    Seq::new(v.len(), |i: int| Call { name: v[i].0@, args: text_views(v[i].1@) })
}

fn find_call(s: &[char], head: &[char]) -> (r: Option<usize>)
    requires
        head@.len() > 0,
    ensures
        match r {
            Some(p) => call_at(s@, head@, 0) == Some(p as int) && p + head@.len() <= s.len()
                && occurs_at(s@, head@, p as int),
            None => call_at(s@, head@, 0) is None,
        },
{
    let mut from: usize = 0;
    loop
        invariant
            head@.len() > 0,
            from <= s@.len(),
            call_at(s@, head@, 0) == call_at(s@, head@, from as int),
        decreases s@.len() - from,
    {
        match find(s, head, from) {
            None => {
                return None;
            },
            Some(p) => {
                proof {
                    lemma_first_occurs(s@, head@, from as int);
                }
                if p == 0 {
                    return Some(p);
                }
                let c = s[p - 1];
                if !(alphanumeric(c) || c == '_') {
                    return Some(p);
                }
                from = p + head.len();
            },
        }
    }
}

proof fn lemma_first_occurs(hay: Seq<char>, needle: Seq<char>, from: int)
    ensures
        first_at(hay, needle, from) matches Some(i) ==> occurs_at(hay, needle, i) && i >= from,
    decreases hay.len() - from + 1,
{
    if from <= hay.len() && !occurs_at(hay, needle, from) {
        lemma_first_occurs(hay, needle, from + 1);
    }
}

fn find_closing(s: &[char], start: usize) -> (r: Option<usize>)
    requires
        1 <= start <= s@.len(),
    ensures
        match r {
            Some(e) => closing_at(s@, start as int, 1) == Some(e as int) && start <= e < s@.len(),
            None => closing_at(s@, start as int, 1) is None,
        },
{
    let mut i: usize = start;
    let mut depth: usize = 1;
    while i < s.len()
        invariant
            1 <= start <= i <= s@.len(),
            1 <= depth <= i - start + 1,
            closing_at(s@, start as int, 1) == closing_at(s@, i as int, depth as int),
        decreases s@.len() - i,
    {
        if s[i] == '(' {
            depth = depth + 1;
        } else if s[i] == ')' {
            depth = depth - 1;
        }
        if depth == 0 {
            return Some(i);
        }
        i = i + 1;
    }
    None
}

fn read_args(s: &[char]) -> (r: Vec<String>)
    ensures
        text_views(r@) == call_args(split(s@, ',')),
{
    let parts = split_chars(s, ',');
    let ghost pv = char_views(parts@);
    let mut out: Vec<String> = Vec::new();
    let mut i: usize = 0;
    proof {
        assert(pv.take(0) =~= Seq::<Seq<char>>::empty());
        assert(text_views(out@) =~= Seq::<Seq<char>>::empty());
    }
    while i < parts.len()
        invariant
            i <= parts@.len(),
            pv == char_views(parts@),
            text_views(out@) == call_args(pv.take(i as int)),
        decreases parts@.len() - i,
    {
        proof {
            assert(pv.take(i as int + 1).drop_last() =~= pv.take(i as int));
            assert(pv.take(i as int + 1).last() == parts@[i as int]@);
        }
        let a = trim_chars(&parts[i]);
        if a.len() > 0 {
            let ghost before = text_views(out@);
            out.push(text_of(&a));
            proof {
                assert(text_views(out@) =~= before.push(a@));
            }
        }
        i = i + 1;
    }
    proof {
        assert(pv.take(i as int) =~= pv);
    }
    out
}

proof fn lemma_count_append(a: Seq<char>, b: Seq<char>, c: char)
    ensures
        count_of(a + b, c) == count_of(a, c) + count_of(b, c),
    decreases b.len(),
{
    if b.len() == 0 {
        assert(a + b =~= a);
    } else {
        lemma_count_append(a, b.drop_last(), c);
        assert((a + b).drop_last() =~= a + b.drop_last());
    }
}

proof fn lemma_count_absent(s: Seq<char>, c: char)
    requires
        forall|i: int| 0 <= i < s.len() ==> #[trigger] s[i] != c,
    ensures
        count_of(s, c) == 0,
    decreases s.len(),
{
    if s.len() > 0 {
        lemma_count_absent(s.drop_last(), c);
    }
}

proof fn lemma_decimal_no_bracket(v: nat)
    ensures
        forall|i: int| 0 <= i < decimal(v).len() ==> #[trigger] decimal(v)[i] != '(',
    decreases v,
{
    if v >= 10 {
        lemma_decimal_no_bracket(v / 10);
        assert forall|i: int| 0 <= i < decimal(v).len() implies #[trigger] decimal(v)[i] != '(' by {
            if i < decimal(v).len() - 1 {
                assert(decimal(v)[i] == decimal(v / 10)[i]);
            }
        }
    }
}

proof fn lemma_marker_no_bracket(k: nat)
    ensures
        count_of(marker(k), '(') == 0,
{
    reveal_strlit("_udf_marker_");
    reveal_strlit(" = 1");
    lemma_decimal_no_bracket(k);
    lemma_count_absent("_udf_marker_"@, '(');
    lemma_count_absent(" = 1"@, '(');
    lemma_count_absent(decimal(k), '(');
    lemma_count_append("_udf_marker_"@, decimal(k), '(');
    lemma_count_append("_udf_marker_"@ + decimal(k), " = 1"@, '(');
}

/// Replacing a call takes a bracket away.
proof fn lemma_call_removes_bracket(s: Seq<char>, head: Seq<char>, p: int, e: int, m: Seq<char>)
    requires
        occurs_at(s, head, p),
        head.len() > 0,
        head.last() == '(',
        p + head.len() <= e < s.len(),
        count_of(m, '(') == 0,
    ensures
        count_of(s.subrange(0, p) + m + s.subrange(e + 1, s.len() as int), '(') < count_of(s, '('),
{
    let a = s.subrange(0, p);
    let b = s.subrange(p, e + 1);
    let c = s.subrange(e + 1, s.len() as int);
    assert(s =~= a + b + c);
    lemma_count_append(a + b, c, '(');
    lemma_count_append(a, b, '(');
    lemma_count_append(a + m, c, '(');
    lemma_count_append(a, m, '(');
    let h = s.subrange(p, p + head.len());
    let t = s.subrange(p + head.len(), e + 1);
    assert(b =~= h + t);
    lemma_count_append(h, t, '(');
    assert(count_of(head, '(') >= 1);
}

fn marker_chars(k: usize) -> (r: Vec<char>)
    ensures
        r@ == marker(k as nat),
{
    let mut out = chars_of("_udf_marker_");
    let d = write_decimal(k as u64);
    push_chars(&mut out, &d);
    let tail = chars_of(" = 1");
    push_chars(&mut out, &tail);
    out
}

/// Replaces the calls of the named functions and lists them. At evaluation the
/// marker column of a call holds 1 where the function accepted the row.
pub fn extract_udf_calls_from_sql(sql: &str, udf_names: &[String]) -> (r: (
    String,
    Vec<(String, Vec<String>)>,
))
    ensures
        (r.0@, call_views(r.1@)) == extracted(sql@, text_views(udf_names@)),
{
    let mut s: Vec<char> = chars_of(sql);
    let mut calls: Vec<(String, Vec<String>)> = Vec::new();
    let ghost names = text_views(udf_names@);
    let mut i: usize = 0;
    proof {
        assert(names.take(0) =~= Seq::<Seq<char>>::empty());
        assert(call_views(calls@) =~= Seq::<Call>::empty());
    }
    while i < udf_names.len()
        invariant
            i <= udf_names@.len(),
            names == text_views(udf_names@),
            (s@, call_views(calls@)) == extracted(sql@, names.take(i as int)),
        decreases udf_names@.len() - i,
    {
        let mut head = chars_of(&udf_names[i]);
        let ghost name = head@;
        head.push('(');
        let ghost s0 = s@;
        let ghost calls0 = call_views(calls@);
        let ghost whole = calls_of(s0, name, calls0.len());
        proof {
            assert(names.take(i as int + 1).drop_last() =~= names.take(i as int));
            assert(names.take(i as int + 1).last() == name);
            assert(calls0 + calls_of(s@, name, calls@.len()).1 =~= call_views(calls@) + calls_of(
                s@,
                name,
                calls@.len(),
            ).1);
        }
        loop
            invariant_except_break
                whole.0 == calls_of(s@, name, calls@.len()).0,
                calls0 + whole.1 == call_views(calls@) + calls_of(s@, name, calls@.len()).1,
            invariant
                i < udf_names@.len(),
                name == udf_names@[i as int]@,
                head@ == call_head(name),
            ensures
                whole.0 == s@,
                calls0 + whole.1 == call_views(calls@),
            decreases count_of(s@, '('),
        {
            let ghost before = call_views(calls@);
            proof {
                assert(before + Seq::<Call>::empty() =~= before);
            }
            match find_call(&s, &head) {
                None => {
                    break;
                },
                Some(p) => {
                    let start: usize = p + head.len();
                    match find_closing(&s, start) {
                        None => {
                            break;
                        },
                        Some(e) => {
                            let inner = copy_chars(&s, start, e);
                            let args = read_args(&inner);
                            let mut next = copy_chars(&s, 0, p);
                            let m = marker_chars(calls.len());
                            push_chars(&mut next, &m);
                            let tail = copy_chars(&s, e + 1, s.len());
                            push_chars(&mut next, &tail);
                            let ghost av = text_views(args@);
                            proof {
                                lemma_marker_no_bracket(calls@.len());
                                lemma_call_removes_bracket(s@, head@, p as int, e as int, m@);
                                let rest = calls_of(next@, name, calls@.len() + 1);
                                let c = Call { name, args: av };
                                assert(one_call(s@, name, calls@.len()) == Some((next@, av)));
                                assert(before + (seq![c] + rest.1) =~= before.push(c) + rest.1);
                            }
                            calls.push((copy_text(&udf_names[i]), args));
                            s = next;
                            proof {
                                assert(call_views(calls@) =~= before.push(Call { name, args: av }));
                            }
                        },
                    }
                },
            }
        }
        i = i + 1;
    }
    proof {
        assert(names.take(i as int) =~= names);
    }
    (text_of(&s), calls)
}

/// A statement without any call of the functions stays as it is.
pub proof fn no_call_changes_nothing(s: Seq<char>, names: Seq<Seq<char>>)
    requires
        forall|i: int|
            0 <= i < names.len() ==> call_at(s, call_head(#[trigger] names[i]), 0) is None,
    ensures
        extracted(s, names) == (s, Seq::<Call>::empty()),
    decreases names.len(),
{
    if names.len() > 0 {
        let t = names.drop_last();
        assert forall|i: int| 0 <= i < t.len() implies call_at(s, call_head(#[trigger] t[i]), 0) is None by {
            assert(t[i] == names[i]);
        }
        no_call_changes_nothing(s, t);
        assert(names[names.len() - 1] == names.last());
        assert(Seq::<Call>::empty() + Seq::<Call>::empty() =~= Seq::<Call>::empty());
    }
}

/// The names of the registered functions, in order, each once.
pub struct UdfRegistry {
    pub names: Vec<String>,
}

impl UdfRegistry {
    pub open spec fn wf(&self) -> bool {
        ascending(text_views(self.names@))
    }

    pub fn new() -> (r: UdfRegistry)
        ensures
            r.wf(),
            r.names@.len() == 0,
    {
        UdfRegistry { names: Vec::new() }
    }

    /// Registers a function, or replaces the one of that name.
    pub fn register_udf(&mut self, name: &str)
        requires
            old(self).wf(),
        ensures
            final(self).wf(),
            forall|x: Seq<char>|
                #[trigger] text_views(final(self).names@).contains(x) <==> text_views(
                    old(self).names@,
                ).contains(x) || x == name@,
    {
        insert_sorted(&mut self.names, name.to_owned());
    }

    /// Takes a function out; tells whether it was there.
    pub fn unregister_udf(&mut self, name: &str) -> (r: bool)
        requires
            old(self).wf(),
        ensures
            final(self).wf(),
            r == text_views(old(self).names@).contains(name@),
            forall|x: Seq<char>|
                #[trigger] text_views(final(self).names@).contains(x) <==> text_views(
                    old(self).names@,
                ).contains(x) && x != name@,
    {
        let ghost before = text_views(self.names@);
        let mut i: usize = 0;
        while i < self.names.len()
            invariant
                i <= self.names@.len(),
                *self == *old(self),
                before == text_views(self.names@),
                ascending(before),
                forall|k: int| 0 <= k < i ==> #[trigger] before[k] != name@,
            decreases self.names@.len() - i,
        {
            proof {
                assert(before[i as int] == self.names@[i as int]@);
            }
            if same_text(&self.names[i], name) {
                let _gone = self.names.remove(i);
                proof {
                    let after = text_views(self.names@);
                    assert(after =~= before.remove(i as int));
                    lemma_without_one(before, i as int);
                }
                return true;
            }
            i = i + 1;
        }
        false
    }

    /// The names of the registered functions.
    pub fn list_udfs(&self) -> (r: Vec<String>)
        ensures
            text_views(r@) == text_views(self.names@),
    {
        let ghost all = text_views(self.names@);
        let mut out: Vec<String> = Vec::new();
        let mut i: usize = 0;
        while i < self.names.len()
            invariant
                i <= self.names@.len(),
                all == text_views(self.names@),
                out@.len() == i,
                forall|k: int| 0 <= k < i ==> (#[trigger] out@[k])@ == all[k],
            decreases self.names@.len() - i,
        {
            out.push(copy_text(&self.names[i]));
            i = i + 1;
        }
        proof {
            assert(text_views(out@) =~= all);
        }
        out
    }
}

proof fn lemma_without_one(s: Seq<Seq<char>>, i: int)
    requires
        ascending(s),
        0 <= i < s.len(),
    ensures
        ascending(s.remove(i)),
        forall|x: Seq<char>|
            #[trigger] s.remove(i).contains(x) <==> s.contains(x) && x != s[i],
{
    let r = s.remove(i);
    assert forall|a: int, b: int| 0 <= a < b < r.len() implies text_before(
        #[trigger] r[a],
        #[trigger] r[b],
    ) by {
        let sa = if a < i {
            a
        } else {
            a + 1
        };
        let sb = if b < i {
            b
        } else {
            b + 1
        };
        assert(r[a] == s[sa] && r[b] == s[sb]);
    }
    assert forall|x: Seq<char>| #[trigger] r.contains(x) <==> s.contains(x) && x != s[i] by {
        if r.contains(x) {
            let k = choose|k: int| 0 <= k < r.len() && r[k] == x;
            let sk = if k < i {
                k
            } else {
                k + 1
            };
            assert(s[sk] == x);
            lemma_bytes_order_total(encode_utf8(s[sk]), encode_utf8(s[i]));
            if sk < i {
                assert(text_before(s[sk], s[i]));
            } else {
                assert(text_before(s[i], s[sk]));
            }
            lemma_bytes_order_total(encode_utf8(x), encode_utf8(x));
        }
        if s.contains(x) && x != s[i] {
            let k = choose|k: int| 0 <= k < s.len() && s[k] == x;
            let rk = if k < i {
                k
            } else {
                k - 1
            };
            assert(r[rk] == x);
        }
    }
}

/// The values that a function is called with: those of its columns, null where a
/// row has none.
pub fn udf_args(row: &JsonValue, args: &[String]) -> (r: Vec<JsonValue>)
    ensures
        json_views(r@) == Seq::new(
            args@.len(),
            |i: int|
                match member(row@, args@[i]@) {
                    Some(v) => v,
                    None => Json::Null,
                },
        ),
{
    let ghost want = Seq::new(
        args@.len(),
        |i: int|
            match member(row@, args@[i]@) {
                Some(v) => v,
                None => Json::Null,
            },
    );
    let mut out: Vec<JsonValue> = Vec::new();
    let mut i: usize = 0;
    while i < args.len()
        invariant
            i <= args@.len(),
            want == Seq::new(
                args@.len(),
                |i: int|
                    match member(row@, args@[i]@) {
                        Some(v) => v,
                        None => Json::Null,
                    },
            ),
            out@.len() == i,
            forall|k: int| 0 <= k < i ==> (#[trigger] out@[k])@ == want[k],
        decreases args@.len() - i,
    {
        let v: JsonValue = match row.get(&args[i]) {
            Some(v) => copy_json(v),
            None => JsonValue::Null,
        };
        out.push(v);
        i = i + 1;
    }
    proof {
        assert(json_views(out@) =~= want);
    }
    out
}

} // verus!
