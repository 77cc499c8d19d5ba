//! What the operations on texts do.

use vstd::prelude::*;
use vstd::string::*;
use crate::index::joined_by;
use crate::text::{ascii_lowered, decimal, decimal_int, digit_of, digits_value, first_at, holds, int_value, is_space,
    occurs_at, split, trim_end, trim_start, trimmed};

verus! {

proof fn lemma_trim_start(s: Seq<char>)
    ensures
        exists|k: int|
            0 <= k <= s.len() && #[trigger] s.skip(k) == trim_start(s) && forall|i: int| 0 <= i < k ==> is_space(#[trigger] s[i]),
        trim_start(s).len() > 0 ==> !is_space(trim_start(s)[0]),
    decreases s.len(),
{
    if s.len() > 0 && is_space(s[0]) {
        let t = s.drop_first();
        lemma_trim_start(t);
        let k = choose|k: int|
            0 <= k <= t.len() && #[trigger] t.skip(k) == trim_start(t) && forall|i: int|
                0 <= i < k ==> is_space(#[trigger] t[i]);
        assert(s.skip(k + 1) =~= t.skip(k));
        assert forall|i: int| 0 <= i < k + 1 implies is_space(#[trigger] s[i]) by {
            if i > 0 {
                assert(t[i - 1] == s[i]);
            }
        }
    } else {
        assert(s.skip(0) =~= s);
    }
}

proof fn lemma_trim_end(s: Seq<char>)
    ensures
        exists|k: int|
            0 <= k <= s.len() && #[trigger] s.take(k) == trim_end(s) && forall|i: int|
                k <= i < s.len() ==> is_space(#[trigger] s[i]),
        trim_end(s).len() > 0 ==> !is_space(trim_end(s).last()),
        s.len() > 0 && !is_space(s[0]) ==> trim_end(s).len() > 0 && trim_end(s)[0] == s[0],
    decreases s.len(),
{
    if s.len() > 0 && is_space(s.last()) {
        let t = s.drop_last();
        lemma_trim_end(t);
        let k = choose|k: int|
            0 <= k <= t.len() && #[trigger] t.take(k) == trim_end(t) && forall|i: int|
                k <= i < t.len() ==> is_space(#[trigger] t[i]);
        assert(s.take(k) =~= t.take(k));
        assert forall|i: int| k <= i < s.len() implies is_space(#[trigger] s[i]) by {
            if i < t.len() {
                assert(t[i] == s[i]);
            }
        }
    } else {
        assert(s.take(s.len() as int) =~= s);
    }
}

/// A trimmed text is the text between white space: it has none at its ends, and all
/// that was cut off is white space.
pub proof fn trimming_cuts_off_white_space(s: Seq<char>)
    ensures
        exists|a: int, b: int|
            0 <= a <= b <= s.len() && #[trigger] s.subrange(a, b) == trimmed(s) && (forall|i: int|
                0 <= i < a ==> is_space(#[trigger] s[i])) && (forall|i: int| b <= i < s.len() ==> is_space(#[trigger] s[i])),
        trimmed(s).len() > 0 ==> !is_space(trimmed(s)[0]) && !is_space(trimmed(s).last()),
{
    lemma_trim_start(s);
    let t = trim_start(s);
    lemma_trim_end(t);
    let a = choose|k: int|
        0 <= k <= s.len() && #[trigger] s.skip(k) == t && forall|i: int| 0 <= i < k ==> is_space(#[trigger] s[i]);
    let c = choose|k: int|
        0 <= k <= t.len() && #[trigger] t.take(k) == trim_end(t) && forall|i: int|
            k <= i < t.len() ==> is_space(#[trigger] t[i]);
    assert(s.subrange(a, a + c) =~= trimmed(s));
    assert forall|i: int| a + c <= i < s.len() implies is_space(#[trigger] s[i]) by {
        assert(t[i - a] == s[i]);
    }
}

/// A text without white space at its ends is trimmed already.
pub proof fn trimmed_texts_stay(s: Seq<char>)
    requires
        s.len() > 0 ==> !is_space(s[0]) && !is_space(s.last()),
    ensures
        trimmed(s) == s,
{
}

/// The blank, the tab and the line ends are white space; what can be seen in ASCII is
/// not.
pub proof fn blanks_are_white_space(c: char)
    ensures
        is_space(' ') && is_space('\t') && is_space('\n') && is_space('\r'),
        '!' <= c && c <= '~' ==> !is_space(c),
{
}

/// The pieces of a text hold no separator, and with the separator between them they are
/// the text again.
pub proof fn pieces_join_to_the_text(s: Seq<char>, sep: char)
    ensures
        split(s, sep).len() > 0,
        joined_by(split(s, sep), seq![sep]) == s,
        forall|i: int| 0 <= i < split(s, sep).len() ==> !(#[trigger] split(s, sep)[i]).contains(sep),
    decreases s.len(),
{
    if s.len() == 0 {
        assert(split(s, sep)[0] == Seq::<char>::empty());
        assert(joined_by(split(s, sep), seq![sep]) =~= s);
    } else {
        let t = s.drop_last();
        pieces_join_to_the_text(t, sep);
        let prev = split(t, sep);
        let all = split(s, sep);
        let c = s.last();
        if c == sep {
            assert(all.drop_last() =~= prev);
            assert(joined_by(all, seq![sep]) =~= t + seq![sep] + Seq::<char>::empty());
            assert(joined_by(all, seq![sep]) =~= s);
            assert forall|i: int| 0 <= i < all.len() implies !(#[trigger] all[i]).contains(sep) by {
                if i < prev.len() {
                    assert(all[i] == prev[i]);
                }
            }
        } else {
            assert(all.drop_last() =~= prev.drop_last());
            let last = prev.last();
            assert(all.last() == last.push(c));
            assert(!last.contains(sep)) by {
                assert(prev[prev.len() - 1] == last);
            }
            if prev.len() == 1 {
                assert(prev[0] == last);
                assert(all.len() == 1 && all[0] == last.push(c));
                assert(joined_by(prev, seq![sep]) == prev[0]);
                assert(t == last);
                assert(s =~= t.push(c));
                assert(joined_by(all, seq![sep]) == all[0]);
            } else {
                let head = joined_by(prev.drop_last(), seq![sep]);
                assert(t == head + seq![sep] + last);
                assert(joined_by(all, seq![sep]) == head + seq![sep] + last.push(c));
                assert(s =~= t.push(c));
                assert((head + seq![sep] + last).push(c) =~= head + seq![sep] + last.push(c));
            }
            assert forall|i: int| 0 <= i < all.len() implies !(#[trigger] all[i]).contains(sep) by {
                if i < prev.len() - 1 {
                    assert(all[i] == prev[i]);
                } else {
                    crate::merge_laws::lemma_push_contains(last, c, sep);
                }
            }
        }
    }
}

/// Texts with a separator between them: each stands in the whole, after those before it.
pub proof fn joined_texts_hold_each(parts: Seq<Seq<char>>, sep: Seq<char>, i: int)
    requires
        0 <= i < parts.len(),
    ensures
        exists|before: Seq<char>, after: Seq<char>|
            joined_by(parts, sep) == #[trigger] (before + parts[i] + after) && before == (if i == 0 {
                Seq::empty()
            } else {
                joined_by(parts.take(i), sep) + sep
            }) && (i + 1 == parts.len() ==> after.len() == 0) && (i + 1 < parts.len() ==> after.take(
                sep.len() as int,
            ) == sep && after.len() >= sep.len()),
    decreases parts.len(),
{
    let rest = parts.drop_last();
    let none = Seq::<char>::empty();
    if parts.len() == 1 {
        assert(joined_by(parts, sep) =~= none + parts[0] + none);
    } else {
        let head = joined_by(rest, sep);
        if i == parts.len() - 1 {
            assert(parts.take(i) =~= rest);
            assert(joined_by(parts, sep) =~= (head + sep) + parts[i] + none);
        } else {
            joined_texts_hold_each(rest, sep, i);
            assert(rest.take(i) =~= parts.take(i));
            let (b, a) = choose|before: Seq<char>, after: Seq<char>|
                head == #[trigger] (before + rest[i] + after) && before == (if i == 0 {
                    Seq::empty()
                } else {
                    joined_by(rest.take(i), sep) + sep
                }) && (i + 1 == rest.len() ==> after.len() == 0) && (i + 1 < rest.len() ==> after.take(
                    sep.len() as int,
                ) == sep && after.len() >= sep.len());
            let a2 = a + sep + parts.last();
            assert(joined_by(parts, sep) =~= b + parts[i] + a2);
            assert(a2.take(sep.len() as int) =~= sep) by {
                if i + 1 < rest.len() {
                    assert(a2.take(sep.len() as int) =~= a.take(sep.len() as int));
                }
            }
        }
    }
}

/// What is looked for is found where it first stands, and nowhere just where it does not
/// stand.
pub proof fn the_first_place_is_found(hay: Seq<char>, needle: Seq<char>, from: int)
    requires
        0 <= from,
    ensures
        match first_at(hay, needle, from) {
            Some(i) => from <= i && i + needle.len() <= hay.len() && hay.subrange(i, i + needle.len()) == needle
                && forall|j: int|
                from <= j < i ==> hay.subrange(j, j + needle.len()) != needle || !#[trigger] occurs_at(hay, needle, j),
            None => forall|j: int| from <= j && j + needle.len() <= hay.len() ==> !#[trigger] occurs_at(hay, needle, j),
        },
        holds(hay, needle) <==> exists|i: int|
            0 <= i && i + needle.len() <= hay.len() && #[trigger] hay.subrange(i, i + needle.len()) == needle,
{
    lemma_first_at(hay, needle, from);
    lemma_first_at(hay, needle, 0);
    if exists|i: int|
        0 <= i && i + needle.len() <= hay.len() && #[trigger] hay.subrange(i, i + needle.len()) == needle {
        let i = choose|i: int|
            0 <= i && i + needle.len() <= hay.len() && #[trigger] hay.subrange(i, i + needle.len()) == needle;
        assert(occurs_at(hay, needle, i));
    }
}

pub proof fn lemma_first_at(hay: Seq<char>, needle: Seq<char>, from: int)
    requires
        0 <= from,
    ensures
        match first_at(hay, needle, from) {
            Some(i) => from <= i && occurs_at(hay, needle, i) && forall|j: int|
                from <= j < i ==> !#[trigger] occurs_at(hay, needle, j),
            None => forall|j: int| from <= j ==> !#[trigger] occurs_at(hay, needle, j),
        },
    decreases hay.len() - from + 1,
{
    if from <= hay.len() && !occurs_at(hay, needle, from) {
        lemma_first_at(hay, needle, from + 1);
        match first_at(hay, needle, from + 1) {
            Some(i) => {
                assert forall|j: int| from <= j < i implies !#[trigger] occurs_at(hay, needle, j) by {}
            },
            None => {
                assert forall|j: int| from <= j implies !#[trigger] occurs_at(hay, needle, j) by {}
            },
        }
    }
}

/// Lower case changes the letters A to Z, each into the letter 32 further on, and
/// nothing else.
pub proof fn lower_case_changes_only_capitals(s: Seq<char>, i: int)
    requires
        0 <= i < s.len(),
    ensures
        ascii_lowered(s).len() == s.len(),
        'A' <= s[i] && s[i] <= 'Z' ==> ascii_lowered(s)[i] as u32 == s[i] as u32 + 32,
        !('A' <= s[i] && s[i] <= 'Z') ==> ascii_lowered(s)[i] == s[i],
        ascii_lowered(ascii_lowered(s)) == ascii_lowered(s),
{
    let low = ascii_lowered(s);
    assert forall|k: int| 0 <= k < s.len() implies #[trigger] ascii_lowered(low)[k] == low[k] by {}
    assert(ascii_lowered(low) =~= low);
}

proof fn lemma_decimal_value(v: nat)
    ensures
        digits_value(decimal(v)) == Some(v),
        decimal(v).len() > 0,
        forall|i: int| 0 <= i < decimal(v).len() ==> '0' <= #[trigger] decimal(v)[i] && decimal(v)[i] <= '9',
        v < 10 ==> decimal(v).len() == 1,
    decreases v,
{
    let d = ((v % 10) as u8 + 48) as u8 as char;
    let s = decimal(v);
    assert(digit_of(d) == Some(v % 10));
    if v < 10 {
        assert(s =~= seq![d]);
        assert(s.drop_last() =~= Seq::<char>::empty());
        assert(digits_value(s.drop_last()) == Some(0nat));
    } else {
        lemma_decimal_value(v / 10);
        let p = decimal(v / 10);
        assert(s == p.push(d));
        assert(s.drop_last() =~= p);
        assert(10 * (v / 10) + v % 10 == v);
    }
}

/// A whole number reads back from its decimal digits.
pub proof fn numbers_read_back(v: i64)
    ensures
        int_value(decimal_int(v as int)) == Some(v),
        v >= 0 ==> int_value(seq!['+'] + decimal(v as nat)) == Some(v),
{
    let n = if v < 0 {
        (-(v as int)) as nat
    } else {
        v as nat
    };
    lemma_decimal_value(n);
    let d = decimal(n);
    let s = decimal_int(v as int);
    assert('0' <= d[0] && d[0] <= '9');
    if v < 0 {
        assert(s.drop_first() =~= d);
        assert(s[0] == '-');
    } else {
        let p = seq!['+'] + d;
        assert(p.drop_first() =~= d);
        assert(p[0] == '+');
        assert(s[0] == d[0]);
    }
}

/// A number that was read is that of its digits: none is read where there is anything
/// but digits after a sign.
pub proof fn only_digits_are_numbers(s: Seq<char>, i: int)
    requires
        int_value(s) is Some,
        0 <= i < s.len(),
    ensures
        '0' <= s[i] <= '9' || (i == 0 && (s[0] == '-' || s[0] == '+')),
        s[0] == '-' ==> int_value(s)->0 <= 0,
        s[0] != '-' ==> int_value(s)->0 >= 0,
{
    let signed = s[0] == '-' || s[0] == '+';
    let digits = if signed {
        s.drop_first()
    } else {
        s
    };
    lemma_digits_only(digits);
    if signed && i > 0 {
        assert(digits[i - 1] == s[i]);
    }
}

proof fn lemma_digits_only(s: Seq<char>)
    requires
        digits_value(s) is Some,
    ensures
        forall|i: int| 0 <= i < s.len() ==> '0' <= #[trigger] s[i] && s[i] <= '9',
    decreases s.len(),
{
    if s.len() > 0 {
        lemma_digits_only(s.drop_last());
        assert forall|i: int| 0 <= i < s.len() implies '0' <= #[trigger] s[i] && s[i] <= '9' by {
            if i < s.len() - 1 {
                assert(s.drop_last()[i] == s[i]);
            }
        }
    }
}

proof fn lemma_no_slash(x: Seq<char>)
    requires
        !x.contains('/'),
    ensures
        first_at(x, "/"@, 0) is None,
{
    reveal_strlit("/");
    lemma_first_at(x, "/"@, 0);
    if let Some(k) = first_at(x, "/"@, 0) {
        assert(x.subrange(k, k + 1)[0] == '/');
        assert(x[k] == '/');
    }
}

proof fn lemma_slash_at(x: Seq<char>, rest: Seq<char>)
    requires
        !x.contains('/'),
    ensures
        first_at(x + "/"@ + rest, "/"@, 0) == Some(x.len() as int),
{
    reveal_strlit("/");
    let s = x + "/"@ + rest;
    lemma_first_at(s, "/"@, 0);
    assert(s.subrange(x.len() as int, x.len() + 1int) =~= "/"@);
    assert(occurs_at(s, "/"@, x.len() as int));
    let k = first_at(s, "/"@, 0)->0;
    if k < x.len() {
        assert(s.subrange(k, k + 1)[0] == '/');
        assert(x[k] == '/');
    }
}

pub proof fn lemma_first_slash(x: Seq<char>, rest: Seq<char>)
    requires
        !x.contains('/'),
    ensures
        first_at(x + "/"@ + rest, "/"@, 0) == Some(x.len() as int),
        (x + "/"@ + rest).subrange(0, x.len() as int) == x,
        first_at(x, "/"@, 0) is None,
{
    lemma_slash_at(x, rest);
    lemma_no_slash(x);
    assert((x + "/"@ + rest).subrange(0, x.len() as int) =~= x);
}

/// A number that does not fit is none.
pub proof fn large_numbers_are_none(v: nat)
    requires
        v > i64::MAX,
    ensures
        int_value(decimal(v)) is None,
        v > i64::MAX + 1 ==> int_value(seq!['-'] + decimal(v)) is None,
{
    lemma_decimal_value(v);
    let d = decimal(v);
    assert('0' <= d[0] && d[0] <= '9');
    assert((seq!['-'] + d).drop_first() =~= d);
}

/// A number is written in decimal: its last digit stands last, after the others, and a
/// minus before a negative one.
pub proof fn numbers_are_written_in_decimal(v: nat)
    ensures
        decimal(v).last() as u32 == '0' as u32 + v % 10,
        v >= 10 ==> decimal(v).drop_last() == decimal(v / 10),
        v < 10 ==> decimal(v).len() == 1,
        decimal_int(v as int) == decimal(v),
        v > 0 ==> decimal_int(-v) == seq!['-'] + decimal(v),
{
    if v >= 10 {
        assert(decimal(v).drop_last() =~= decimal(v / 10));
    }
}

} // verus!
