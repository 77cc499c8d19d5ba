//! What the texts of a merge say: key columns, actions, conditions, SET clauses.

use vstd::prelude::*;
use vstd::string::*;
use crate::json::{Json, Number};
use crate::merge::{ActionView, MergeActionType, SetView, SpecView};
use crate::merge_text::{action_of, action_pair, and_parts, and_scan, clause_parts, in_name, is_ascii_text, item_pair,
    key_pair, key_pairs, list_actions, match_keys, miss_target_plan, on_keys, override_of, param_plan, plan_action,
    plan_actions, plan_of, set_of, set_parts, stands_alone, stripped, table_actions, with_word, without_when, word_at,
    word_from, ActionItem, OnItem, OnParam};
use crate::tally::how_many;
use crate::text::{ascii_lowered, decimal_int, first_at, is_space, occurs_at, split, starts_with, trimmed};
use crate::text_laws::{lemma_first_at, numbers_read_back};
use crate::where_clause::{FloatTable, ReadingView};

verus! {

/// A word names an action in any case. A matched row cannot be inserted, and other
/// words are refused.
pub proof fn words_name_actions(s: Seq<char>, is_match: bool)
    requires
        is_ascii_text(s),
    ensures
        action_of(s, is_match) == Ok::<MergeActionType, Seq<char>>(MergeActionType::Update) <==> ascii_lowered(s)
            == "update"@,
        action_of(s, is_match) == Ok::<MergeActionType, Seq<char>>(MergeActionType::Delete) <==> ascii_lowered(s)
            == "delete"@,
        action_of(s, is_match) == Ok::<MergeActionType, Seq<char>>(MergeActionType::Skip) <==> ascii_lowered(s) == "skip"@,
        action_of(s, is_match) == Ok::<MergeActionType, Seq<char>>(MergeActionType::Insert) <==> ascii_lowered(s)
            == "insert"@ && !is_match,
        action_of(s, is_match) is Err <==> ascii_lowered(s) != "update"@ && ascii_lowered(s) != "delete"@ && ascii_lowered(
            s,
        ) != "skip"@ && (ascii_lowered(s) != "insert"@ || is_match),
{
    reveal_strlit("update");
    reveal_strlit("delete");
    reveal_strlit("skip");
    reveal_strlit("insert");
    assert("update"@[0] == 'u' && "delete"@[0] == 'd' && "skip"@[0] == 's' && "insert"@[0] == 'i');
}

proof fn lemma_word_from(s: Seq<char>, word: Seq<char>, from: int)
    requires
        0 <= from,
    ensures
        match word_from(s, word, from) {
            Some(i) => from <= i < s.len() && stands_alone(s, word, i) && forall|j: int|
                from <= j < i ==> !#[trigger] stands_alone(s, word, j),
            None => forall|j: int| from <= j < s.len() ==> !#[trigger] stands_alone(s, word, j),
        },
    decreases s.len() - from,
{
    if from < s.len() && !stands_alone(s, word, from) {
        lemma_word_from(s, word, from + 1);
    }
}

/// A word counts where it first stands, in any case, with neither a letter, a digit, an
/// underscore nor a dot beside it.
pub proof fn words_stand_alone(s: Seq<char>, word: Seq<char>, i: int)
    requires
        word.len() > 0,
    ensures
        match word_at(s, word) {
            Some(k) => 0 <= k && k + word.len() <= s.len() && ascii_lowered(s.subrange(k, k + word.len())) == word && (k > 0
                ==> !in_name(s[k - 1])) && (k + word.len() < s.len() ==> !in_name(s[k + word.len()])),
            None => true,
        },
        0 <= i && i + word.len() <= s.len() && ascii_lowered(s.subrange(i, i + word.len())) == word && (i > 0 ==> !in_name(
            s[i - 1],
        )) && (i + word.len() < s.len() ==> !in_name(s[i + word.len()])) ==> (word_at(s, word) matches Some(k) && k <= i),
        in_name('.') && in_name('_'),
{
    lemma_word_from(s, word, 0);
    if let Some(k) = word_at(s, word) {
        assert(ascii_lowered(s.subrange(k, k + word.len())) =~= ascii_lowered(s).subrange(k, k + word.len()));
    }
    if 0 <= i && i + word.len() <= s.len() && ascii_lowered(s.subrange(i, i + word.len())) == word && (i > 0 ==> !in_name(
        s[i - 1],
    )) && (i + word.len() < s.len() ==> !in_name(s[i + word.len()])) {
        assert(ascii_lowered(s.subrange(i, i + word.len())) =~= ascii_lowered(s).subrange(i, i + word.len()));
        assert(stands_alone(s, word, i));
    }
}

/// A clause is cut at its two words: the action before them, the condition after WHERE
/// and the assignments after SET, in either order.
pub proof fn clauses_are_cut_at_their_words(a: Seq<char>, w: Seq<char>, b: Seq<char>, t: Seq<char>, c: Seq<char>)
    requires
        w.len() == 5,
        t.len() == 3,
    ensures
        ({
            let s = a + w + b + t + c;
            word_at(s, "where"@) == Some(a.len() as int) && word_at(s, "set"@) == Some(a.len() + 5 + b.len() as int)
                ==> clause_parts(s) == (trimmed(a), trimmed(b), trimmed(c))
        }),
        ({
            let s = a + t + b + w + c;
            word_at(s, "set"@) == Some(a.len() as int) && word_at(s, "where"@) == Some(a.len() + 3 + b.len() as int)
                ==> clause_parts(s) == (trimmed(a), trimmed(c), trimmed(b))
        }),
        ({
            let s = a + w + b;
            word_at(s, "where"@) == Some(a.len() as int) && word_at(s, "set"@) is None ==> clause_parts(s) == (
                trimmed(a),
                trimmed(b),
                Seq::<char>::empty(),
            )
        }),
        ({
            let s = a + t + b;
            word_at(s, "set"@) == Some(a.len() as int) && word_at(s, "where"@) is None ==> clause_parts(s) == (
                trimmed(a),
                Seq::<char>::empty(),
                trimmed(b),
            )
        }),
        word_at(a, "where"@) is None && word_at(a, "set"@) is None ==> clause_parts(a) == (
            trimmed(a),
            Seq::<char>::empty(),
            Seq::<char>::empty(),
        ),
{
    let n = a.len() as int;
    let e = Seq::<char>::empty();
    assert(trimmed(e) =~= e);
    let s1 = a + w + b + t + c;
    assert(s1.subrange(0, n) =~= a);
    assert(s1.subrange(n + 5, n + 5 + b.len()) =~= b);
    assert(s1.subrange(n + 5 + b.len() + 3, s1.len() as int) =~= c);
    let s2 = a + t + b + w + c;
    assert(s2.subrange(0, n) =~= a);
    assert(s2.subrange(n + 3, n + 3 + b.len()) =~= b);
    assert(s2.subrange(n + 3 + b.len() + 5, s2.len() as int) =~= c);
    let s3 = a + w + b;
    assert(s3.subrange(0, n) =~= a);
    assert(s3.subrange(n + 5, s3.len() as int) =~= b);
    let s4 = a + t + b;
    assert(s4.subrange(0, n) =~= a);
    assert(s4.subrange(n + 3, s4.len() as int) =~= b);
    assert(a.subrange(0, n) =~= a);
}

/// The action of a clause has the condition and the assignments that the clause has;
/// a blank part is none.
pub proof fn actions_have_their_clauses(s: Seq<char>, is_match: bool, floats: FloatTable)
    ensures
        match plan_action(s, is_match, floats) {
            Ok(a) => {
                let (word, condition, set) = clause_parts(s);
                &&& action_of(word, is_match) == Ok::<MergeActionType, Seq<char>>(a.action)
                &&& condition.len() > 0 ==> a.condition == Some(condition)
                &&& condition.len() == 0 ==> a.condition is None
                &&& set.len() > 0 ==> (a.set matches Some(v) && set_of(set, floats) == Ok::<SetView, Seq<char>>(v))
                &&& set.len() == 0 ==> a.set is None
            },
            Err(_) => action_of(clause_parts(s).0, is_match) is Err || set_of(clause_parts(s).2, floats) is Err,
        },
{
}

proof fn lemma_stripped(p: Seq<char>, x: Seq<char>)
    ensures
        stripped(p + x, p) == x,
{
    let s = p + x;
    assert(s.subrange(0, p.len() as int) =~= p);
    assert(s.skip(p.len() as int) =~= x);
}

/// The value of an override: the column of a side, a quoted text, a boolean, null, a
/// whole number, a float, or the text as it is.
pub proof fn overrides_say_their_values(x: Seq<char>, v: i64, reading: ReadingView, s: Seq<char>, bits: u64, text: Seq<char>)
    ensures
        override_of("s."@ + x, reading) == SpecView::SourceCol(x),
        override_of("t."@ + x, reading) == SpecView::TargetCol(x),
        override_of(seq!['\''] + x + seq!['\''], reading) == SpecView::Static(Json::String(x)),
        override_of(seq!['"'] + x + seq!['"'], reading) == SpecView::Static(Json::String(x)),
        ascii_lowered(s) == "true"@ ==> override_of(s, reading) == SpecView::Static(Json::Bool(true)),
        ascii_lowered(s) == "false"@ ==> override_of(s, reading) == SpecView::Static(Json::Bool(false)),
        ascii_lowered(s) == "null"@ ==> override_of(s, reading) == SpecView::Static(Json::Null),
        override_of(decimal_int(v as int), reading) == SpecView::Static(Json::Number(Number::Int(v))),
{
    reveal_strlit("s.");
    reveal_strlit("t.");
    reveal_strlit("true");
    reveal_strlit("false");
    reveal_strlit("null");
    let a = "s."@ + x;
    assert(a.subrange(0, 2) =~= "s."@);
    assert(a.skip(2) =~= x);
    let b = "t."@ + x;
    assert(b.subrange(0, 2) =~= "t."@);
    assert(b.skip(2) =~= x);
    assert("t."@[0] == 't' && "s."@[0] == 's');
    if starts_with(b, "s."@) {
        assert(b.subrange(0, 2)[0] == 's');
    }
    let q = seq!['\''] + x + seq!['\''];
    let d = seq!['"'] + x + seq!['"'];
    assert(q[0] == '\'' && q.last() == '\'' && d[0] == '"' && d.last() == '"');
    assert(q.subrange(1, q.len() - 1) =~= x);
    assert(d.subrange(1, d.len() - 1) =~= x);
    lemma_not_prefixed(q, 's');
    lemma_not_prefixed(d, 's');
    lemma_word(s);
    numbers_read_back(v);
    let n = decimal_int(v as int);
    crate::text_laws::only_digits_are_numbers(n, 0);
    lemma_not_prefixed(n, 's');
    let low = ascii_lowered(n);
    assert(low[0] == n[0]);
}

proof fn lemma_not_prefixed(s: Seq<char>, c: char)
    requires
        s.len() > 0,
        s[0] != 's',
        s[0] != 't',
    ensures
        !starts_with(s, "s."@),
        !starts_with(s, "t."@),
{
    reveal_strlit("s.");
    reveal_strlit("t.");
    if starts_with(s, "s."@) {
        assert(s.subrange(0, 2)[0] == 's');
    }
    if starts_with(s, "t."@) {
        assert(s.subrange(0, 2)[0] == 't');
    }
}

proof fn lemma_word(s: Seq<char>)
    ensures
        ascii_lowered(s) == "true"@ || ascii_lowered(s) == "false"@ || ascii_lowered(s) == "null"@ ==> !starts_with(
            s,
            "s."@,
        ) && !starts_with(s, "t."@) && s.len() > 0 && s[0] != '\'' && s[0] != '"',
        !("true"@ == "false"@) && !("true"@ == "null"@) && !("false"@ == "null"@),
{
    reveal_strlit("s.");
    reveal_strlit("t.");
    reveal_strlit("true");
    reveal_strlit("false");
    reveal_strlit("null");
    let low = ascii_lowered(s);
    assert("true"@[1] == 'r' && "false"@[1] == 'a' && "null"@[1] == 'u' && "true"@[0] == 't' && "false"@[0] == 'f'
        && "null"@[0] == 'n');
    if low == "true"@ || low == "false"@ || low == "null"@ {
        assert(low.len() == s.len());
        assert(s[0] == '\'' ==> low[0] == '\'');
        assert(s[0] == '"' ==> low[0] == '"');
        assert(s[1] == '.' ==> low[1] == '.');
        assert(low[1] != '.');
        assert(low[0] != '\'' && low[0] != '"');
        if starts_with(s, "s."@) {
            assert(s.subrange(0, 2)[1] == '.');
            assert(s[1] == '.');
        }
        if starts_with(s, "t."@) {
            assert(s.subrange(0, 2)[1] == '.');
            assert(s[1] == '.');
        }
    }
}

/// A part of a SET clause that assigns a value to a column.
pub open spec fn assigns(part: Seq<char>) -> bool {
    trimmed(part).len() > 0 && trimmed(part) != "*"@
}

/// Each part of a SET clause that is neither blank nor a star gives one assignment, in
/// the order of the parts: to the column before its first `=`, of the value after that.
/// A star asks for all source columns.
pub proof fn assignments_stand_in_order(parts: Seq<Seq<char>>, floats: FloatTable, n: nat, i: int)
    requires
        n <= parts.len(),
        0 <= i < n,
        set_parts(parts, floats, n) is Ok,
    ensures
        ({
            let set = set_parts(parts, floats, n)->Ok_0;
            let at = how_many(i as nat, |j: int| assigns(parts[j])) as int;
            &&& set.columns.len() == how_many(n, |j: int| assigns(parts[j]))
            &&& set.copy_all <==> exists|j: int| 0 <= j < n && trimmed(#[trigger] parts[j]) == "*"@
            &&& assigns(parts[i]) ==> {
                &&& at < set.columns.len()
                &&& first_at(trimmed(parts[i]), "="@, 0) matches Some(k) && set.columns[at].0 == stripped(
                    trimmed(trimmed(parts[i]).take(k)),
                    "t."@,
                ) && set.columns[at].1 == override_of(
                    trimmed(trimmed(parts[i]).skip(k + 1)),
                    floats.reading(trimmed(trimmed(parts[i]).skip(k + 1))),
                )
            }
        }),
    decreases n,
{
    let p = |j: int| assigns(parts[j]);
    let m = (n - 1) as nat;
    let last = trimmed(parts[n - 1]);
    assert(how_many(n, p) == how_many(m, p) + if assigns(parts[n - 1]) {
        1nat
    } else {
        0nat
    });
    assert(how_many(0, p) == 0);
    let set = set_parts(parts, floats, n)->Ok_0;
    let prev = set_parts(parts, floats, m)->Ok_0;
    reveal_strlit("=");
    if m > 0 {
        assignments_stand_in_order(parts, floats, m, if i < m {
            i
        } else {
            0
        });
    } else {
        assert(prev.columns.len() == 0);
        assert(!prev.copy_all);
    }
    if last.len() > 0 && last == "*"@ {
        assert(trimmed(parts[n - 1]) == "*"@);
    }
    if set.copy_all {
        if prev.copy_all {
            let j = choose|j: int| 0 <= j < m && trimmed(#[trigger] parts[j]) == "*"@;
            assert(trimmed(parts[j]) == "*"@);
        } else {
            assert(trimmed(parts[n - 1]) == "*"@);
        }
    }
    if exists|j: int| 0 <= j < n && trimmed(#[trigger] parts[j]) == "*"@ {
        let j = choose|j: int| 0 <= j < n && trimmed(#[trigger] parts[j]) == "*"@;
        reveal_strlit("*");
        if j < m {
            assert(trimmed(parts[j]) == "*"@);
            assert(prev.copy_all);
        }
        assert(set.copy_all);
    }
    if i == m && assigns(parts[i]) {
        let k = first_at(last, "="@, 0)->0;
        lemma_first_at(last, "="@, 0);
        assert(last.take(k) =~= last.subrange(0, k));
        assert(last.skip(k + 1) =~= last.subrange(k + 1, last.len() as int));
        assert(set.columns =~= prev.columns.push(set.columns.last()));
    } else if i < m && assigns(parts[i]) {
        let at = how_many(i as nat, p) as int;
        assert(set.columns.len() >= prev.columns.len());
        assert(set.columns[at] == prev.columns[at]);
    }
}

/// A SET clause is its parts between commas, and must say something.
pub proof fn set_clauses_say_something(s: Seq<char>, floats: FloatTable)
    ensures
        match set_of(s, floats) {
            Ok(v) => set_parts(split(trimmed(s), ','), floats, split(trimmed(s), ',').len()) == Ok::<SetView, Seq<char>>(v)
                && (v.copy_all || v.columns.len() > 0),
            Err(_) => match set_parts(split(trimmed(s), ','), floats, split(trimmed(s), ',').len()) {
                Ok(v) => !v.copy_all && v.columns.len() == 0,
                Err(_) => true,
            },
        },
{
}

/// The parts of two texts with a separator between them are those of the one and then
/// those of the other.
pub proof fn pieces_of_joined_texts(a: Seq<char>, b: Seq<char>, sep: char)
    ensures
        split(a.push(sep) + b, sep) == split(a, sep) + split(b, sep),
        !a.contains(sep) ==> split(a, sep) == seq![a],
    decreases a.len() + b.len(),
{
    let s = a.push(sep) + b;
    let head = split(a, sep);
    if b.len() == 0 {
        assert(s.drop_last() =~= a);
        assert(split(b, sep) =~= seq![Seq::<char>::empty()]);
        assert(split(s, sep) =~= head + split(b, sep));
    } else {
        let t = b.drop_last();
        pieces_of_joined_texts(a, t, sep);
        let prev = split(t, sep);
        crate::text_laws::pieces_join_to_the_text(t, sep);
        assert(s.drop_last() =~= a.push(sep) + t);
        assert(s.last() == b.last());
        assert((head + prev).drop_last() =~= head + prev.drop_last());
        assert((head + prev).last() == prev.last());
        assert(split(s, sep) =~= head + split(b, sep));
    }
    if !a.contains(sep) {
        lemma_one_piece(a, sep);
    }
}

proof fn lemma_one_piece(a: Seq<char>, sep: char)
    requires
        !a.contains(sep),
    ensures
        split(a, sep) == seq![a],
    decreases a.len(),
{
    if a.len() > 0 {
        let t = a.drop_last();
        assert(a[a.len() - 1] == a.last());
        if t.contains(sep) {
            let k = choose|k: int| 0 <= k < t.len() && t[k] == sep;
            assert(a[k] == sep);
        }
        lemma_one_piece(t, sep);
        assert(t.push(a.last()) =~= a);
        assert(split(a, sep) =~= seq![a]);
    } else {
        assert(a =~= Seq::<char>::empty());
        assert(split(a, sep) =~= seq![a]);
    }
}

/// A clause that is not blank gives one action, in the order of the clauses.
pub proof fn actions_stand_in_order(parts: Seq<Seq<char>>, is_match: bool, floats: FloatTable, n: nat, i: int)
    requires
        n <= parts.len(),
        0 <= i < n,
        plan_actions(parts, is_match, floats, n) is Ok,
    ensures
        ({
            let plan = plan_actions(parts, is_match, floats, n)->Ok_0;
            let at = how_many(i as nat, |j: int| trimmed(parts[j]).len() > 0) as int;
            &&& plan.len() == how_many(n, |j: int| trimmed(parts[j]).len() > 0)
            &&& trimmed(parts[i]).len() > 0 ==> at < plan.len() && plan_action(trimmed(parts[i]), is_match, floats) == Ok::<
                ActionView,
                Seq<char>,
            >(plan[at])
        }),
    decreases n,
{
    let p = |j: int| trimmed(parts[j]).len() > 0;
    let m = (n - 1) as nat;
    assert(how_many(n, p) == how_many(m, p) + if trimmed(parts[n - 1]).len() > 0 {
        1nat
    } else {
        0nat
    });
    assert(how_many(0, p) == 0);
    if m > 0 {
        actions_stand_in_order(parts, is_match, floats, m, if i < m {
            i
        } else {
            0
        });
    } else {
        assert(plan_actions(parts, is_match, floats, m)->Ok_0.len() == 0);
    }
}

/// The words WHEN MATCHED THEN before a plan change nothing of it.
pub proof fn the_occasion_is_left_out(head: Seq<char>, body: Seq<char>)
    requires
        ascii_lowered(head) == "when matched then "@ || ascii_lowered(head) == "when not matched then "@,
        body.len() > 0,
        !is_space(body[0]),
        !is_space(body.last()),
    ensures
        without_when(head + body) == body,
        !starts_with(ascii_lowered(body), "when"@) ==> without_when(body) == body,
{
    reveal_strlit("when matched then ");
    reveal_strlit("when not matched then ");
    reveal_strlit("when");
    let s = head + body;
    let low = ascii_lowered(s);
    let h = ascii_lowered(head);
    assert(h.len() == head.len());
    assert(h[0] == 'w');
    assert(s[0] == head[0]);
    assert(!is_space(s[0]));
    assert(s.last() == body.last());
    crate::text_laws::trimmed_texts_stay(s);
    crate::text_laws::trimmed_texts_stay(body);
    assert(low.subrange(0, head.len() as int) =~= h);
    assert(s.skip(head.len() as int) =~= body);
    assert("when matched then "@[5] == 'm' && "when not matched then "@[5] == 'n');
    if starts_with(low, "when matched then "@) {
        assert(low.subrange(0, "when matched then "@.len() as int)[5] == 'm');
        assert(low[5] == h[5]);
    }
    let lb = ascii_lowered(body);
    if starts_with(lb, "when matched then "@) {
        assert(lb.subrange(0, 4) =~= lb.subrange(0, "when matched then "@.len() as int).subrange(0, 4));
        assert(lb.subrange(0, 4) =~= "when"@);
    }
    if starts_with(lb, "when not matched then "@) {
        assert(lb.subrange(0, 4) =~= lb.subrange(0, "when not matched then "@.len() as int).subrange(0, 4));
        assert(lb.subrange(0, 4) =~= "when"@);
    }
}

/// Without a plan what matches is updated, what is missing is inserted, and a target
/// without a source stays; an entry of a table is an action under its condition.
pub proof fn plans_have_defaults(floats: FloatTable, word: Seq<char>, condition: Seq<char>, is_match: bool)
    ensures
        ({
            let p = param_plan(None, true, floats);
            p is Ok && p->Ok_0.len() == 1 && p->Ok_0[0].action == MergeActionType::Update && p->Ok_0[0].condition is None
                && p->Ok_0[0].set is None
        }),
        ({
            let p = param_plan(None, false, floats);
            p is Ok && p->Ok_0.len() == 1 && p->Ok_0[0].action == MergeActionType::Insert && p->Ok_0[0].condition is None
                && p->Ok_0[0].set is None
        }),
        ({
            let p = miss_target_plan(None, floats);
            p is Ok && p->Ok_0.len() == 1 && p->Ok_0[0].action == MergeActionType::Skip && p->Ok_0[0].condition is None
        }),
        match action_pair(word, condition, is_match) {
            Ok(a) => action_of(word, is_match) == Ok::<MergeActionType, Seq<char>>(a.action) && a.set is None && (
            a.condition is None <==> trimmed(condition).len() == 0) && (a.condition matches Some(c) ==> c == condition),
            Err(_) => action_of(word, is_match) is Err,
        },
{
}

/// The actions of a table are those of its entries, one for each.
pub proof fn tables_give_an_action_each(items: Seq<(String, String)>, is_match: bool, n: nat, i: int)
    requires
        n <= items.len(),
        0 <= i < n,
        table_actions(items, is_match, n) is Ok,
    ensures
        table_actions(items, is_match, n)->Ok_0.len() == n,
        action_pair(items[i].0@, items[i].1@, is_match) == Ok::<ActionView, Seq<char>>(
            table_actions(items, is_match, n)->Ok_0[i],
        ),
    decreases n,
{
    let m = (n - 1) as nat;
    if m > 0 {
        tables_give_an_action_each(items, is_match, m, if i < m {
            i
        } else {
            0
        });
    } else {
        assert(table_actions(items, is_match, m)->Ok_0.len() == 0);
    }
}

/// A list of actions gives those of its entries, one entry after the other: a text its
/// plan, a pair its action under its condition.
pub proof fn lists_give_their_actions(a: Seq<ActionItem>, b: Seq<ActionItem>, x: ActionItem, is_match: bool, floats: FloatTable)
    ensures
        ({
            let whole = list_actions(a + b, is_match, floats, a.len() + b.len());
            match (list_actions(a, is_match, floats, a.len()), list_actions(b, is_match, floats, b.len())) {
                (Ok(p), Ok(q)) => whole == Ok::<Seq<ActionView>, Seq<char>>(p + q),
                _ => whole is Err,
            }
        }),
        ({
            let one = list_actions(seq![x], is_match, floats, 1);
            match x {
                ActionItem::Text(s) => match plan_of(s@, is_match, floats) {
                    Ok(p) => one == Ok::<Seq<ActionView>, Seq<char>>(p),
                    Err(_) => one is Err,
                },
                ActionItem::Pair(w, c) => match action_pair(w@, c@, is_match) {
                    Ok(p) => one == Ok::<Seq<ActionView>, Seq<char>>(seq![p]),
                    Err(_) => one is Err,
                },
                ActionItem::Other => one is Err,
            }
        }),
    decreases b.len(),
{
    let none = Seq::<ActionView>::empty();
    let one = seq![x];
    assert(list_actions(one, is_match, floats, 0) == Ok::<Seq<ActionView>, Seq<char>>(none));
    assert(one[1 - 1] == x);
    match x {
        ActionItem::Text(s) => {
            if let Ok(p) = plan_of(s@, is_match, floats) {
                assert(none + p =~= p);
            }
        },
        ActionItem::Pair(w, c) => {
            if let Ok(p) = action_pair(w@, c@, is_match) {
                assert(none.push(p) =~= seq![p]);
            }
        },
        ActionItem::Other => {},
    }
    lemma_list_prefix(a, b, is_match, floats, a.len());
    if b.len() == 0 {
        if let Ok(p) = list_actions(a, is_match, floats, a.len()) {
            assert(p + none =~= p);
        }
    } else {
        let t = b.drop_last();
        let m = (b.len() - 1) as nat;
        lists_give_their_actions(a, t, x, is_match, floats);
        lemma_list_prefix(t, seq![b.last()], is_match, floats, m);
        assert(t + seq![b.last()] =~= b);
        lemma_list_prefix(a + t, seq![b.last()], is_match, floats, a.len() + m);
        assert(a + t + seq![b.last()] =~= a + b);
        assert((a + b)[(a.len() + b.len()) - 1] == b[b.len() - 1]);
        let n = a.len() + b.len();
        assert((n - 1) as nat == a.len() + m);
        match (list_actions(a, is_match, floats, a.len()), list_actions(t, is_match, floats, m)) {
            (Ok(p), Ok(q)) => {
                assert(list_actions(a + b, is_match, floats, a.len() + m) == Ok::<Seq<ActionView>, Seq<char>>(p + q));
                match b[b.len() - 1] {
                    ActionItem::Text(s) => {
                        if let Ok(more) = plan_of(s@, is_match, floats) {
                            assert((p + q) + more =~= p + (q + more));
                        }
                    },
                    ActionItem::Pair(w, c) => {
                        if let Ok(y) = action_pair(w@, c@, is_match) {
                            assert((p + q).push(y) =~= p + q.push(y));
                        }
                    },
                    ActionItem::Other => {},
                }
            },
            _ => {},
        }
    }
}

proof fn lemma_list_prefix(a: Seq<ActionItem>, b: Seq<ActionItem>, is_match: bool, floats: FloatTable, n: nat)
    requires
        n <= a.len(),
    ensures
        list_actions(a + b, is_match, floats, n) == list_actions(a, is_match, floats, n),
    decreases n,
{
    if n > 0 {
        lemma_list_prefix(a, b, is_match, floats, (n - 1) as nat);
        assert((a + b)[n - 1] == a[n - 1]);
    }
}

/// The pair of a text with `=` is what stands before and after that, each without the
/// mark of its side.
pub proof fn key_pairs_have_two_sides(a: Seq<char>, b: Seq<char>)
    requires
        a.len() > 0,
        b.len() > 0,
        !a.contains('='),
    ensures
        key_pair("t."@ + a + "="@ + "s."@ + b) == Ok::<(Seq<char>, Seq<char>), Seq<char>>((a, b)),
        !starts_with(a, "t."@) && !starts_with(b, "s."@) ==> key_pair(a + "="@ + b) == Ok::<
            (Seq<char>, Seq<char>),
            Seq<char>,
        >((a, b)),
        key_pair(a) is Err,
{
    reveal_strlit("t.");
    reveal_strlit("s.");
    let ta = "t."@ + a;
    let sb = "s."@ + b;
    if ta.contains('=') {
        let k = choose|k: int| 0 <= k < ta.len() && ta[k] == '=';
        assert(k >= 2);
        assert(a[k - 2] == '=');
    }
    lemma_key_pair(ta, sb);
    assert(ta + "="@ + sb =~= "t."@ + a + "="@ + "s."@ + b);
    lemma_stripped("t."@, a);
    lemma_stripped("s."@, b);
    lemma_key_pair(a, b);
    lemma_no_pair(a);
}

proof fn lemma_no_pair(a: Seq<char>)
    requires
        !a.contains('='),
    ensures
        first_at(a, "="@, 0) is None,
{
    lemma_first_at(a, "="@, 0);
    reveal_strlit("=");
    if let Some(k) = first_at(a, "="@, 0) {
        assert(a.subrange(k, k + 1)[0] == '=');
        assert(a[k] == '=');
    }
}

proof fn lemma_key_pair(a: Seq<char>, b: Seq<char>)
    requires
        a.len() > 0,
        b.len() > 0,
        !a.contains('='),
    ensures
        key_pair(a + "="@ + b) == Ok::<(Seq<char>, Seq<char>), Seq<char>>((stripped(a, "t."@), stripped(b, "s."@))),
{
    lemma_equals(a, b);
}

proof fn lemma_equals(a: Seq<char>, b: Seq<char>)
    requires
        !a.contains('='),
    ensures
        ({
            let s = a + "="@ + b;
            first_at(s, "="@, 0) == Some(a.len() as int) && s.subrange(0, a.len() as int) == a && s.subrange(
                a.len() + 1int,
                s.len() as int,
            ) == b
        }),
{
    reveal_strlit("=");
    let s = a + "="@ + b;
    lemma_first_at(s, "="@, 0);
    assert(s.subrange(a.len() as int, a.len() + 1int) =~= "="@);
    assert(occurs_at(s, "="@, a.len() as int));
    let k = first_at(s, "="@, 0)->0;
    if k < a.len() {
        assert(s.subrange(k, k + 1)[0] == '=');
        assert(a[k] == '=');
    }
    assert(s.subrange(0, a.len() as int) =~= a);
    assert(s.subrange(a.len() + 1int, s.len() as int) =~= b);
}

proof fn lemma_scan_prefix(a: Seq<char>, b: Seq<char>, n: nat)
    requires
        n <= a.len(),
    ensures
        and_scan(a + b, n) == and_scan(a, n),
        and_scan(a, n).0.len() > 0,
    decreases n,
{
    if n > 0 {
        lemma_scan_prefix(a, b, (n - 1) as nat);
        assert((a + b)[n - 1] == a[n - 1]);
    }
}

/// The parts of two texts with the word AND between them are those of the one and then
/// those of the other; a word without white space is one part.
pub proof fn conditions_are_cut_at_and(a: Seq<char>, b: Seq<char>, w: Seq<char>)
    ensures
        and_parts(a + " AND "@ + b) == and_parts(a) + and_parts(b),
        (forall|i: int| 0 <= i < w.len() ==> !is_space(#[trigger] w[i])) && w != "AND"@ ==> and_parts(w) == seq![w],
{
    reveal_strlit(" AND ");
    reveal_strlit("AND");
    let mid = " AND "@;
    let s = a + mid + b;
    let n = a.len();
    assert(s =~= a + (mid + b));
    lemma_scan_prefix(a, mid + b, n);
    let (parts, word) = and_scan(a, n);
    let e = Seq::<char>::empty();
    assert(s[n as int] == ' ' && s[n + 1int] == 'A' && s[n + 2int] == 'N' && s[n + 3int] == 'D' && s[n + 4int] == ' ');
    let done = with_word(parts, word);
    assert(and_scan(s, n + 1) == (done, e));
    assert(and_scan(s, n + 2) == (done, e.push('A')));
    assert(and_scan(s, n + 3) == (done, e.push('A').push('N')));
    assert(and_scan(s, n + 4) == (done, e.push('A').push('N').push('D')));
    assert(e.push('A').push('N').push('D') =~= "AND"@);
    assert(and_scan(s, n + 5) == (done.push(e), e));
    assert(done.push(e) =~= done + seq![e]);
    lemma_scan_shift(s, b, n + 5, b.len(), done);
    let (tail, last) = and_scan(b, b.len());
    assert(s.len() == n + 5 + b.len());
    lemma_scan_prefix(b, e, b.len());
    assert((done + tail).drop_last() =~= done + tail.drop_last());
    assert((done + tail).last() == tail.last());
    assert(and_parts(s) =~= and_parts(a) + and_parts(b));
    if (forall|i: int| 0 <= i < w.len() ==> !is_space(#[trigger] w[i])) && w != "AND"@ {
        lemma_one_word(w, w.len());
        assert(w.take(w.len() as int) =~= w);
        assert(e + w =~= w);
        assert(and_parts(w) =~= seq![w]);
    }
}

proof fn lemma_one_word(w: Seq<char>, n: nat)
    requires
        n <= w.len(),
        forall|i: int| 0 <= i < w.len() ==> !is_space(#[trigger] w[i]),
    ensures
        and_scan(w, n) == (seq![Seq::<char>::empty()], w.take(n as int)),
    decreases n,
{
    if n > 0 {
        lemma_one_word(w, (n - 1) as nat);
        assert(!is_space(w[n - 1]));
        assert(w.take(n - 1).push(w[n - 1]) =~= w.take(n as int));
    } else {
        assert(w.take(0) =~= Seq::<char>::empty());
    }
}

proof fn lemma_scan_shift(s: Seq<char>, b: Seq<char>, at: nat, n: nat, done: Seq<Seq<char>>)
    requires
        n <= b.len(),
        s.len() == at + b.len(),
        forall|i: int| 0 <= i < b.len() ==> s[at + i] == #[trigger] b[i],
        and_scan(s, at) == (done + seq![Seq::<char>::empty()], Seq::<char>::empty()),
    ensures
        and_scan(s, at + n) == (done + and_scan(b, n).0, and_scan(b, n).1),
    decreases n,
{
    if n > 0 {
        lemma_scan_shift(s, b, at, (n - 1) as nat, done);
        let (tail, word) = and_scan(b, (n - 1) as nat);
        lemma_scan_prefix(b, Seq::empty(), (n - 1) as nat);
        assert(s[at + (n - 1)] == b[n - 1]);
        assert((done + tail).drop_last() =~= done + tail.drop_last());
        assert((done + tail).last() == tail.last());
        assert((done + tail).push(Seq::<char>::empty()) =~= done + tail.push(Seq::<char>::empty()));
        assert(with_word(done + tail, word) =~= done + with_word(tail, word));
    }
}

/// Each part that is not empty gives one pair of key columns, in the order of the parts.
pub proof fn key_pairs_stand_in_order(parts: Seq<Seq<char>>, n: nat, i: int)
    requires
        n <= parts.len(),
        0 <= i < n,
        key_pairs(parts, n) is Ok,
    ensures
        ({
            let keys = key_pairs(parts, n)->Ok_0;
            let at = how_many(i as nat, |j: int| parts[j].len() > 0) as int;
            &&& keys.len() == how_many(n, |j: int| parts[j].len() > 0)
            &&& parts[i].len() > 0 ==> at < keys.len() && key_pair(parts[i]) == Ok::<(Seq<char>, Seq<char>), Seq<char>>(
                keys[at],
            )
        }),
    decreases n,
{
    let p = |j: int| parts[j].len() > 0;
    let m = (n - 1) as nat;
    assert(how_many(n, p) == how_many(m, p) + if parts[n - 1].len() > 0 {
        1nat
    } else {
        0nat
    });
    assert(how_many(0, p) == 0);
    if m > 0 {
        key_pairs_stand_in_order(parts, m, if i < m {
            i
        } else {
            0
        });
    } else {
        assert(key_pairs(parts, m)->Ok_0.len() == 0);
    }
}

/// A column alone is the key on both sides; without a parameter that is the key column,
/// and `_rowid` where there is none; a list gives its entries in order.
pub proof fn one_column_is_the_key_of_both_sides(s: Seq<char>, k: Seq<char>, items: Vec<OnItem>, i: int, floats: FloatTable)
    requires
        s.len() > 0,
        !is_space(s[0]),
        !is_space(s.last()),
        !s.contains('='),
    ensures
        on_keys(s) == Ok::<Seq<(Seq<char>, Seq<char>)>, Seq<char>>(seq![(s, s)]),
        match_keys(None, Some(k)) == Ok::<Seq<(Seq<char>, Seq<char>)>, Seq<char>>(seq![(k, k)]),
        match_keys(None, None) == Ok::<Seq<(Seq<char>, Seq<char>)>, Seq<char>>(seq![("_rowid"@, "_rowid"@)]),
        match match_keys(Some(OnParam::List(items)), None) {
            Ok(keys) => keys.len() == items@.len() && keys.len() > 0 && (0 <= i < keys.len() ==> match items@[i] {
                OnItem::Pair(t, u) => keys[i] == (t@, u@),
                OnItem::Name(n) => keys[i] == (n@, n@),
                OnItem::Other => false,
            }),
            Err(_) => items@.len() == 0 || exists|j: int| 0 <= j < items@.len() && (#[trigger] items@[j]) is Other,
        },
{
    crate::text_laws::trimmed_texts_stay(s);
    lemma_first_at(s, "="@, 0);
    reveal_strlit("=");
    if let Some(n) = first_at(s, "="@, 0) {
        assert(s.subrange(n, n + 1)[0] == '=');
        assert(s[n] == '=');
    }
    match match_keys(Some(OnParam::List(items)), None) {
        Ok(keys) => {
            if 0 <= i < keys.len() {
                assert(item_pair(items@[i]) is Some);
            }
        },
        Err(_) => {
            if items@.len() > 0 {
                let j = choose|j: int| 0 <= j < items@.len() && item_pair(#[trigger] items@[j]) is None;
                assert(items@[j] is Other);
            }
        },
    }
}

} // verus!
