//! The texts of a merge: which columns to match on, which actions to take,
//! which columns to set.

use vstd::prelude::*;
use vstd::string::*;
use crate::json::{Json, JsonNumber, JsonValue, Number};
use crate::merge::{plan_views, ActionView, MergeActionType, MergePlanAction, SetClause, SetView, SpecView,
    ValueSpec};
use crate::text::{
    ascii_lowered, char_views, chars_of, copy_chars, copy_text, find, first_at, has_prefix, holds,
    int_value, is_space, is_text, lower_chars, occurs_at, parse_int, push_chars, same_text, space, split,
    split_chars, starts_with, text_of, text_range, text_views, trim_chars,
    trimmed,
};
use crate::udf::{alphanumeric, is_word_char};
use crate::where_clause::{is_quoted, message, tell_alike, FloatReading, FloatTable, ReadingView};

verus! {

/// A text in lower case.
pub uninterp spec fn lower_text(s: Seq<char>) -> Seq<char>;

/// `str::to_lowercase`: the text in lower case, by the Unicode rules, which are
/// named and not written out. On ASCII the letters A to Z become a to z and
/// nothing else changes.
#[verifier::external_body]
pub(crate) fn to_lower(s: &str) -> (r: String)
    ensures
        r@ == lower_text(s@),
        is_ascii_text(s@) ==> r@ == ascii_lowered(s@),
{
    s.to_lowercase()
}

/// A text of ASCII characters.
pub open spec fn is_ascii_text(s: Seq<char>) -> bool {
    forall|i: int| 0 <= i < s.len() ==> (#[trigger] s[i] as u32) < 128
}

/// A text in lower case. What it is for a text in ASCII is known.
pub open spec fn lowered_text(s: Seq<char>) -> Seq<char> {
    if is_ascii_text(s) {
        ascii_lowered(s)
    } else {
        lower_text(s)
    }
}

/// The parts of a text between the words AND, after its first `n` characters, and
/// the word under way. The words of a part stand together without white space.
pub open spec fn and_scan(s: Seq<char>, n: nat) -> (Seq<Seq<char>>, Seq<char>)
    decreases n,
{
    if n == 0 {
        (seq![Seq::empty()], Seq::empty())
    } else {
        let (parts, word) = and_scan(s, (n - 1) as nat);
        if is_space(s[n - 1]) {
            (with_word(parts, word), Seq::empty())
        } else {
            (parts, word.push(s[n - 1]))
        }
    }
}

/// The parts with one more word: AND starts a new part.
pub open spec fn with_word(parts: Seq<Seq<char>>, word: Seq<char>) -> Seq<Seq<char>> {
    if word == "AND"@ {
        parts.push(Seq::empty())
    } else {
        parts.drop_last().push(parts.last() + word)
    }
}

/// The parts of a text between the words AND.
pub open spec fn and_parts(s: Seq<char>) -> Seq<Seq<char>> {
    let (parts, word) = and_scan(s, s.len());
    with_word(parts, word)
}

fn add_word(parts: &mut Vec<Vec<char>>, word: &[char])
    requires
        old(parts)@.len() > 0,
    ensures
        final(parts)@.len() > 0,
        char_views(final(parts)@) == with_word(char_views(old(parts)@), word@),
{
    let ghost before = char_views(parts@);
    if is_text(word, "AND") {
        parts.push(Vec::new());
        proof {
            assert(char_views(parts@) =~= before.push(Seq::empty()));
        }
    } else if let Some(last) = parts.pop() {
        let mut longer = last;
        push_chars(&mut longer, word);
        parts.push(longer);
        proof {
            assert(char_views(parts@) =~= before.drop_last().push(before.last() + word@));
        }
    }
}

fn split_at_and(s: &[char]) -> (r: Vec<Vec<char>>)
    ensures
        char_views(r@) == and_parts(s@),
{
    let mut parts: Vec<Vec<char>> = Vec::new();
    parts.push(Vec::new());
    let mut word: Vec<char> = Vec::new();
    let mut i: usize = 0;
    proof {
        assert(char_views(parts@) =~= seq![Seq::<char>::empty()]);
        assert(word@ =~= Seq::<char>::empty());
    }
    while i < s.len()
        invariant
            i <= s@.len(),
            parts@.len() > 0,
            (char_views(parts@), word@) == and_scan(s@, i as nat),
        decreases s@.len() - i,
    {
        if space(s[i]) {
            add_word(&mut parts, &word);
            word = Vec::new();
            proof {
                assert(word@ =~= Seq::<char>::empty());
            }
        } else {
            word.push(s[i]);
        }
        i = i + 1;
    }
    add_word(&mut parts, &word);
    parts
}

/// The text without a prefix, where it has that.
pub open spec fn stripped(s: Seq<char>, prefix: Seq<char>) -> Seq<char> {
    if starts_with(s, prefix) {
        s.skip(prefix.len() as int)
    } else {
        s
    }
}

fn strip(s: &[char], prefix: &str) -> (r: Vec<char>)
    ensures
        r@ == stripped(s@, prefix@),
{
    let p = chars_of(prefix);
    if has_prefix(s, &p) {
        let r = copy_chars(s, p.len(), s.len());
        proof {
            assert(r@ =~= s@.skip(p@.len() as int));
        }
        r
    } else {
        let r = copy_chars(s, 0, s.len());
        proof {
            assert(r@ =~= s@);
        }
        r
    }
}

/// A pair of key columns, target and source, or what is wrong with its text.
pub open spec fn key_pair(part: Seq<char>) -> Result<(Seq<char>, Seq<char>), Seq<char>> {
    match first_at(part, "="@, 0) {
        None => Err("Expected '=' in ON clause: '"@ + part + "'"@),
        Some(i) => {
            let target = part.subrange(0, i);
            let source = part.subrange(i + 1, part.len() as int);
            if target.len() == 0 || source.len() == 0 {
                Err("Invalid ON clause: '"@ + part + "'"@)
            } else {
                Ok((stripped(target, "t."@), stripped(source, "s."@)))
            }
        },
    }
}

/// The pairs of the first `n` parts, or the first error. Empty parts do not
/// count.
pub open spec fn key_pairs(parts: Seq<Seq<char>>, n: nat) -> Result<
    Seq<(Seq<char>, Seq<char>)>,
    Seq<char>,
>
    decreases n,
{
    if n == 0 {
        Ok(Seq::empty())
    } else {
        match key_pairs(parts, (n - 1) as nat) {
            Err(e) => Err(e),
            Ok(prev) => if parts[n - 1].len() == 0 {
                Ok(prev)
            } else {
                match key_pair(parts[n - 1]) {
                    Ok(p) => Ok(prev.push(p)),
                    Err(e) => Err(e),
                }
            },
        }
    }
}

/// The pairs of key columns that a text names: one column for both sides, or
/// `target = source` pairs joined by the word AND.
pub open spec fn on_keys(s: Seq<char>) -> Result<Seq<(Seq<char>, Seq<char>)>, Seq<char>> {
    let t = trimmed(s);
    if !holds(t, "="@) {
        Ok(seq![(t, t)])
    } else {
        let parts = and_parts(t);
        match key_pairs(parts, parts.len()) {
            Ok(keys) => if keys.len() == 0 {
                Err("ON clause must have at least one key pair"@)
            } else {
                Ok(keys)
            },
            Err(e) => Err(e),
        }
    }
}

pub open spec fn pair_views(v: Seq<(String, String)>) -> Seq<(Seq<char>, Seq<char>)> {
    Seq::new(v.len(), |i: int| (v[i].0@, v[i].1@))
}

proof fn lemma_first_key_error(parts: Seq<Seq<char>>, n: nat, m: nat)
    requires
        n <= m,
        key_pairs(parts, n) is Err,
    ensures
        key_pairs(parts, m) == key_pairs(parts, n),
    decreases m,
{
    if n < m {
        lemma_first_key_error(parts, n, (m - 1) as nat);
    }
}

fn read_pair(part: &[char]) -> (r: Result<(String, String), String>)
    ensures
        match r {
            Ok(p) => key_pair(part@) == Ok::<(Seq<char>, Seq<char>), Seq<char>>((p.0@, p.1@)),
            Err(e) => key_pair(part@) == Err::<(Seq<char>, Seq<char>), Seq<char>>(e@),
        },
{
    let eq = chars_of("=");
    proof {
        reveal_strlit("=");
    }
    match find(part, &eq, 0) {
        None => Err(message("Expected '=' in ON clause: '", part, "'")),
        Some(i) => {
            let target = copy_chars(part, 0, i);
            let source = copy_chars(part, i + 1, part.len());
            if target.len() == 0 || source.len() == 0 {
                return Err(message("Invalid ON clause: '", part, "'"));
            }
            let t = strip(&target, "t.");
            let s = strip(&source, "s.");
            Ok((text_of(&t), text_of(&s)))
        },
    }
}

/// Reads the pairs of key columns.
pub fn parse_on_string(s: &str) -> (r: Result<Vec<(String, String)>, String>)
    ensures
        match r {
            Ok(v) => on_keys(s@) == Ok::<Seq<(Seq<char>, Seq<char>)>, Seq<char>>(pair_views(v@)),
            Err(e) => on_keys(s@) == Err::<Seq<(Seq<char>, Seq<char>)>, Seq<char>>(e@),
        },
{
    let chars = chars_of(s);
    let t = trim_chars(&chars);
    let eq = chars_of("=");
    let mut out: Vec<(String, String)> = Vec::new();
    if find(&t, &eq, 0).is_none() {
        out.push((text_of(&t), text_of(&t)));
        proof {
            assert(pair_views(out@) =~= seq![(t@, t@)]);
        }
        return Ok(out);
    }
    let parts = split_at_and(&t);
    let ghost pv = char_views(parts@);
    let mut i: usize = 0;
    proof {
        assert(pair_views(out@) =~= Seq::<(Seq<char>, Seq<char>)>::empty());
    }
    while i < parts.len()
        invariant
            i <= parts@.len(),
            t@ == trimmed(s@),
            holds(t@, "="@),
            pv == char_views(parts@),
            pv == and_parts(t@),
            key_pairs(pv, i as nat) == Ok::<Seq<(Seq<char>, Seq<char>)>, Seq<char>>(
                pair_views(out@),
            ),
        decreases parts@.len() - i,
    {
        proof {
            assert(pv[i as int] == parts@[i as int]@);
        }
        if parts[i].len() > 0 {
            match read_pair(&parts[i]) {
                Ok(p) => {
                    let ghost before = pair_views(out@);
                    out.push(p);
                    proof {
                        assert(pair_views(out@) =~= before.push((p.0@, p.1@)));
                    }
                },
                Err(e) => {
                    proof {
                        lemma_first_key_error(pv, (i + 1) as nat, pv.len());
                    }
                    return Err(e);
                },
            }
        }
        i = i + 1;
    }
    if out.len() == 0 {
        return Err("ON clause must have at least one key pair".to_owned());
    }
    Ok(out)
}

/// An entry of a list of key columns.
pub enum OnItem {
    /// Target and source column.
    Pair(String, String),
    /// One name for both.
    Name(String),
    /// Something else.
    Other,
}

/// How the key columns were given.
pub enum OnParam {
    Text(String),
    List(Vec<OnItem>),
    Other,
}

pub open spec fn item_pair(item: OnItem) -> Option<(Seq<char>, Seq<char>)> {
    match item {
        OnItem::Pair(t, s) => Some((t@, s@)),
        OnItem::Name(n) => Some((n@, n@)),
        OnItem::Other => None,
    }
}

/// The key columns that a parameter names. Without one, the key column for both
/// sides, `_rowid` where there is none.
pub open spec fn match_keys(on: Option<OnParam>, key_col: Option<Seq<char>>) -> Result<
    Seq<(Seq<char>, Seq<char>)>,
    Seq<char>,
> {
    match on {
        None => {
            let key = match key_col {
                Some(k) => k,
                None => "_rowid"@,
            };
            Ok(seq![(key, key)])
        },
        Some(OnParam::Text(s)) => on_keys(s@),
        Some(OnParam::List(items)) => if exists|i: int|
            0 <= i < items@.len() && item_pair(#[trigger] items@[i]) is None {
            Err("on= list must contain strings or (target, source) tuples"@)
        } else if items@.len() == 0 {
            Err("on= list is empty"@)
        } else {
            Ok(Seq::new(items@.len(), |i: int| item_pair(items@[i])->0))
        },
        Some(OnParam::Other) => Err(
            "on= must be a string, list of strings, or list of (target, source) tuples"@,
        ),
    }
}

pub open spec fn opt_param(on: Option<&OnParam>) -> Option<OnParam> {
    match on {
        Some(p) => Some(*p),
        None => None,
    }
}

pub open spec fn opt_str(s: Option<&str>) -> Option<Seq<char>> {
    match s {
        Some(x) => Some(x@),
        None => None,
    }
}

/// Reads the key columns from a parameter.
pub fn parse_match_keys(on: Option<&OnParam>, key_col: Option<&str>) -> (r: Result<
    Vec<(String, String)>,
    String,
>)
    ensures
        match r {
            Ok(v) => match_keys(opt_param(on), opt_str(key_col)) == Ok::<
                Seq<(Seq<char>, Seq<char>)>,
                Seq<char>,
            >(pair_views(v@)),
            Err(e) => match_keys(opt_param(on), opt_str(key_col)) == Err::<
                Seq<(Seq<char>, Seq<char>)>,
                Seq<char>,
            >(e@),
        },
{
    let mut out: Vec<(String, String)> = Vec::new();
    match on {
        None => {
            let key = match key_col {
                Some(k) => k.to_owned(),
                None => "_rowid".to_owned(),
            };
            let ghost k = key@;
            out.push((copy_text(&key), key));
            proof {
                assert(pair_views(out@) =~= seq![(k, k)]);
            }
            Ok(out)
        },
        Some(OnParam::Text(s)) => parse_on_string(s),
        Some(OnParam::List(items)) => {
            let mut i: usize = 0;
            while i < items.len()
                invariant
                    i <= items@.len(),
                    on is Some,
                    *(on->0) == OnParam::List(*items),
                    forall|k: int| 0 <= k < i ==> item_pair(#[trigger] items@[k]) is Some,
                    pair_views(out@) =~= Seq::new(i as nat, |k: int| item_pair(items@[k])->0),
                decreases items@.len() - i,
            {
                let ghost before = pair_views(out@);
                match &items[i] {
                    OnItem::Pair(t, s) => {
                        out.push((copy_text(t), copy_text(s)));
                    },
                    OnItem::Name(n) => {
                        out.push((copy_text(n), copy_text(n)));
                    },
                    OnItem::Other => {
                        proof {
                            assert(item_pair(items@[i as int]) is None);
                        }
                        return Err(
                            "on= list must contain strings or (target, source) tuples".to_owned(),
                        );
                    },
                }
                proof {
                    assert(item_pair(items@[i as int]) is Some);
                    assert(pair_views(out@) =~= before.push(item_pair(items@[i as int])->0));
                }
                i = i + 1;
            }
            if items.len() == 0 {
                return Err("on= list is empty".to_owned());
            }
            Ok(out)
        },
        Some(OnParam::Other) => Err(
            "on= must be a string, list of strings, or list of (target, source) tuples".to_owned(),
        ),
    }
}

/// The action that a word in lower case names. A matched row cannot be inserted.
pub open spec fn action_named(word: Seq<char>, is_match: bool) -> Result<MergeActionType, Seq<char>> {
    if word == "update"@ {
        Ok(MergeActionType::Update)
    } else if word == "delete"@ {
        Ok(MergeActionType::Delete)
    } else if word == "skip"@ {
        Ok(MergeActionType::Skip)
    } else if word == "insert"@ {
        if is_match {
            Err("'insert' is not valid for on_match"@)
        } else {
            Ok(MergeActionType::Insert)
        }
    } else {
        Err("Unknown merge action: '"@ + word + "' (use update/delete/skip/insert)"@)
    }
}

/// The action that a word names, in any case.
pub open spec fn action_of(s: Seq<char>, is_match: bool) -> Result<MergeActionType, Seq<char>> {
    action_named(lowered_text(s), is_match)
}

/// Reads an action's word.
pub fn parse_action_str(s: &str, is_match: bool) -> (r: Result<MergeActionType, String>)
    ensures
        match r {
            Ok(a) => action_of(s@, is_match) == Ok::<MergeActionType, Seq<char>>(a),
            Err(e) => action_of(s@, is_match) == Err::<MergeActionType, Seq<char>>(e@),
        },
{
    let word = to_lower(s);
    action_of_word(&word, is_match)
}

/// Reads an action's word that is in lower case already.
pub fn action_of_word(word: &str, is_match: bool) -> (r: Result<MergeActionType, String>)
    ensures
        match r {
            Ok(a) => action_named(word@, is_match) == Ok::<MergeActionType, Seq<char>>(a),
            Err(e) => action_named(word@, is_match) == Err::<MergeActionType, Seq<char>>(e@),
        },
{
    if same_text(word, "update") {
        Ok(MergeActionType::Update)
    } else if same_text(word, "delete") {
        Ok(MergeActionType::Delete)
    } else if same_text(word, "skip") {
        Ok(MergeActionType::Skip)
    } else if same_text(word, "insert") {
        if is_match {
            Err("'insert' is not valid for on_match".to_owned())
        } else {
            Ok(MergeActionType::Insert)
        }
    } else {
        let chars = chars_of(word);
        Err(message("Unknown merge action: '", &chars, "' (use update/delete/skip/insert)"))
    }
}

/// The value that the text of an override stands for.
pub open spec fn override_of(s: Seq<char>, reading: ReadingView) -> SpecView {
    if starts_with(s, "s."@) {
        SpecView::SourceCol(s.skip("s."@.len() as int))
    } else if starts_with(s, "t."@) {
        SpecView::TargetCol(s.skip("t."@.len() as int))
    } else if is_quoted(s, '\'') || is_quoted(s, '"') {
        SpecView::Static(Json::String(s.subrange(1, s.len() - 1)))
    } else if ascii_lowered(s) == "true"@ {
        SpecView::Static(Json::Bool(true))
    } else if ascii_lowered(s) == "false"@ {
        SpecView::Static(Json::Bool(false))
    } else if ascii_lowered(s) == "null"@ {
        SpecView::Static(Json::Null)
    } else if int_value(s) is Some {
        SpecView::Static(Json::Number(Number::Int(int_value(s)->0)))
    } else {
        match reading {
            ReadingView::Json(bits, text) => SpecView::Static(
                Json::Number(Number::Float(bits, text)),
            ),
            ReadingView::NoJson => SpecView::Static(Json::Null),
            ReadingView::NotFloat => SpecView::Static(Json::String(s)),
        }
    }
}

fn read_override(s: &[char], floats: &FloatTable) -> (r: ValueSpec)
    ensures
        r@ == override_of(s@, floats.reading(s@)),
{
    let src = chars_of("s.");
    let tgt = chars_of("t.");
    if has_prefix(s, &src) {
        let rest = strip(s, "s.");
        return ValueSpec::SourceCol(text_of(&rest));
    }
    if has_prefix(s, &tgt) {
        let rest = strip(s, "t.");
        return ValueSpec::TargetCol(text_of(&rest));
    }
    let n: usize = s.len();
    if n >= 2 && (s[0] == '\'' && s[n - 1] == '\'' || s[0] == '"' && s[n - 1] == '"') {
        return ValueSpec::Static(JsonValue::String(text_range(s, 1, n - 1)));
    }
    let low = lower_chars(s);
    if is_text(&low, "true") {
        return ValueSpec::Static(JsonValue::Bool(true));
    }
    if is_text(&low, "false") {
        return ValueSpec::Static(JsonValue::Bool(false));
    }
    if is_text(&low, "null") {
        return ValueSpec::Static(JsonValue::Null);
    }
    if let Some(i) = parse_int(s) {
        return ValueSpec::Static(JsonValue::Number(JsonNumber::Int(i)));
    }
    let text = text_of(s);
    match floats.read(&text) {
        FloatReading::Json(bits, t) => ValueSpec::Static(
            JsonValue::Number(JsonNumber::Float(bits, t)),
        ),
        FloatReading::NoJson => ValueSpec::Static(JsonValue::Null),
        FloatReading::NotFloat => ValueSpec::Static(JsonValue::String(text)),
    }
}

/// The clause that the first `n` parts make, or the first error. `*` asks for
/// all source columns; empty parts do not count.
pub open spec fn set_parts(parts: Seq<Seq<char>>, floats: FloatTable, n: nat) -> Result<
    SetView,
    Seq<char>,
>
    decreases n,
{
    if n == 0 {
        Ok(SetView { copy_all: false, columns: Seq::empty() })
    } else {
        match set_parts(parts, floats, (n - 1) as nat) {
            Err(e) => Err(e),
            Ok(prev) => {
                let p = trimmed(parts[n - 1]);
                if p.len() == 0 {
                    Ok(prev)
                } else if p == "*"@ {
                    Ok(SetView { copy_all: true, columns: prev.columns })
                } else {
                    match first_at(p, "="@, 0) {
                        None => Err("Expected '=' in SET clause: '"@ + p + "'"@),
                        Some(i) => {
                            let target = stripped(trimmed(p.subrange(0, i)), "t."@);
                            let value = trimmed(p.subrange(i + 1, p.len() as int));
                            Ok(
                                SetView {
                                    copy_all: prev.copy_all,
                                    columns: prev.columns.push(
                                        (target, override_of(value, floats.reading(value))),
                                    ),
                                },
                            )
                        },
                    }
                }
            },
        }
    }
}

/// What a SET clause says, or what is wrong with it.
pub open spec fn set_of(s: Seq<char>, floats: FloatTable) -> Result<SetView, Seq<char>> {
    let parts = split(trimmed(s), ',');
    match set_parts(parts, floats, parts.len()) {
        Ok(set) => if !set.copy_all && set.columns.len() == 0 {
            Err("SET clause is empty"@)
        } else {
            Ok(set)
        },
        Err(e) => Err(e),
    }
}

proof fn lemma_first_set_error(parts: Seq<Seq<char>>, floats: FloatTable, n: nat, m: nat)
    requires
        n <= m,
        set_parts(parts, floats, n) is Err,
    ensures
        set_parts(parts, floats, m) == set_parts(parts, floats, n),
    decreases m,
{
    if n < m {
        lemma_first_set_error(parts, floats, n, (m - 1) as nat);
    }
}

fn read_set(s: &[char], floats: &FloatTable) -> (r: Result<SetClause, String>)
    ensures
        match r {
            Ok(c) => set_of(s@, *floats) == Ok::<SetView, Seq<char>>(c@),
            Err(e) => set_of(s@, *floats) == Err::<SetView, Seq<char>>(e@),
        },
{
    let t = trim_chars(s);
    let parts = split_chars(&t, ',');
    let ghost pv = char_views(parts@);
    let mut clause = SetClause { copy_all: false, columns: Vec::new() };
    let eq = chars_of("=");
    let mut i: usize = 0;
    proof {
        reveal_strlit("=");
        assert(clause@.columns =~= Seq::<(Seq<char>, SpecView)>::empty());
    }
    while i < parts.len()
        invariant
            i <= parts@.len(),
            pv == char_views(parts@),
            pv == split(trimmed(s@), ','),
            eq@ == "="@,
            "="@.len() == 1,
            set_parts(pv, *floats, i as nat) == Ok::<SetView, Seq<char>>(clause@),
        decreases parts@.len() - i,
    {
        let p = trim_chars(&parts[i]);
        proof {
            assert(pv[i as int] == parts@[i as int]@);
        }
        if p.len() > 0 {
            if is_text(&p, "*") {
                clause.copy_all = true;
            } else {
                match find(&p, &eq, 0) {
                    None => {
                        proof {
                            lemma_first_set_error(pv, *floats, (i + 1) as nat, pv.len());
                        }
                        return Err(message("Expected '=' in SET clause: '", &p, "'"));
                    },
                    Some(k) => {
                        let left = copy_chars(&p, 0, k);
                        let right = copy_chars(&p, k + 1, p.len());
                        let left_t = trim_chars(&left);
                        let target = strip(&left_t, "t.");
                        let value = trim_chars(&right);
                        let spec = read_override(&value, floats);
                        let ghost before = clause@.columns;
                        let name = text_of(&target);
                        let ghost added = (name@, spec@);
                        clause.columns.push((name, spec));
                        proof {
                            assert(clause@.columns =~= before.push(added));
                        }
                    },
                }
            }
        }
        i = i + 1;
    }
    if !clause.copy_all && clause.columns.len() == 0 {
        return Err("SET clause is empty".to_owned());
    }
    Ok(clause)
}

/// Reads a SET clause. `floats` tells what texts are as floats.
pub fn parse_set_clause_for_merge(s: &str, floats: &FloatTable) -> (r: Result<SetClause, String>)
    ensures
        match r {
            Ok(c) => set_of(s@, *floats) == Ok::<SetView, Seq<char>>(c@),
            Err(e) => set_of(s@, *floats) == Err::<SetView, Seq<char>>(e@),
        },
{
    let chars = chars_of(s);
    read_set(&chars, floats)
}

/// A character that continues a name.
pub open spec fn in_name(c: char) -> bool {
    is_word_char(c) || c == '.'
}

/// A word stands at `i`, in any case, and is no part of a longer name.
pub open spec fn stands_alone(s: Seq<char>, word: Seq<char>, i: int) -> bool {
    &&& occurs_at(ascii_lowered(s), word, i)
    &&& i == 0 || !in_name(s[i - 1])
    &&& i + word.len() == s.len() || !in_name(s[i + word.len()])
}

/// Where a word first stands alone, from `from` on.
pub open spec fn word_from(s: Seq<char>, word: Seq<char>, from: int) -> Option<int>
    decreases s.len() - from,
{
    if from >= s.len() {
        None
    } else if stands_alone(s, word, from) {
        Some(from)
    } else {
        word_from(s, word, from + 1)
    }
}

/// Where a word first stands alone.
pub open spec fn word_at(s: Seq<char>, word: Seq<char>) -> Option<int> {
    word_from(s, word, 0)
}

/// The parts of an action's text: `ACTION [WHERE ...] [SET ...]`, the two
/// clauses in either order, each up to the other or to the end.
pub open spec fn clause_parts(s: Seq<char>) -> (Seq<char>, Seq<char>, Seq<char>) {
    let n = s.len() as int;
    let wp = match word_at(s, "where"@) {
        Some(i) => i,
        None => n,
    };
    let sp = match word_at(s, "set"@) {
        Some(i) => i,
        None => n,
    };
    let action = s.subrange(
        0,
        if wp <= sp {
            wp
        } else {
            sp
        },
    );
    let condition = if wp == n {
        Seq::empty()
    } else {
        s.subrange(
            wp + 5,
            if sp >= wp + 5 {
                sp
            } else {
                n
            },
        )
    };
    let set = if sp == n {
        Seq::empty()
    } else {
        s.subrange(
            sp + 3,
            if wp >= sp + 3 {
                wp
            } else {
                n
            },
        )
    };
    (trimmed(action), trimmed(condition), trimmed(set))
}

/// The action that a clause says, or what is wrong with it.
pub open spec fn plan_action(s: Seq<char>, is_match: bool, floats: FloatTable) -> Result<
    ActionView,
    Seq<char>,
> {
    let (word, condition, set) = clause_parts(s);
    match action_of(word, is_match) {
        Err(e) => Err(e),
        Ok(action) => {
            let cond = if condition.len() == 0 {
                None
            } else {
                Some(condition)
            };
            if set.len() == 0 {
                Ok(ActionView { action, condition: cond, set: None })
            } else {
                match set_of(set, floats) {
                    Ok(c) => Ok(ActionView { action, condition: cond, set: Some(c) }),
                    Err(e) => Err(e),
                }
            }
        },
    }
}

/// The actions of the first `n` clauses, or the first error. Blank clauses do
/// not count.
pub open spec fn plan_actions(
    parts: Seq<Seq<char>>,
    is_match: bool,
    floats: FloatTable,
    n: nat,
) -> Result<Seq<ActionView>, Seq<char>>
    decreases n,
{
    if n == 0 {
        Ok(Seq::empty())
    } else {
        match plan_actions(parts, is_match, floats, (n - 1) as nat) {
            Err(e) => Err(e),
            Ok(prev) => {
                let c = trimmed(parts[n - 1]);
                if c.len() == 0 {
                    Ok(prev)
                } else {
                    match plan_action(c, is_match, floats) {
                        Ok(a) => Ok(prev.push(a)),
                        Err(e) => Err(e),
                    }
                }
            },
        }
    }
}

/// The text without a `WHEN [NOT] MATCHED THEN` before it.
pub open spec fn without_when(s: Seq<char>) -> Seq<char> {
    let t = trimmed(s);
    let low = ascii_lowered(t);
    if starts_with(low, "when matched then "@) {
        trimmed(t.skip("when matched then "@.len() as int))
    } else if starts_with(low, "when not matched then "@) {
        trimmed(t.skip("when not matched then "@.len() as int))
    } else {
        t
    }
}

/// The plan that a text says, or what is wrong with it: actions separated by
/// semicolons, at least one.
pub open spec fn plan_of(s: Seq<char>, is_match: bool, floats: FloatTable) -> Result<
    Seq<ActionView>,
    Seq<char>,
> {
    let body = without_when(s);
    let parts = split(body, ';');
    match plan_actions(parts, is_match, floats, parts.len()) {
        Ok(actions) => if actions.len() == 0 {
            Err("No valid actions found in: '"@ + body + "'"@)
        } else {
            Ok(actions)
        },
        Err(e) => Err(e),
    }
}

proof fn lemma_first_plan_error(
    parts: Seq<Seq<char>>,
    is_match: bool,
    floats: FloatTable,
    n: nat,
    m: nat,
)
    requires
        n <= m,
        plan_actions(parts, is_match, floats, n) is Err,
    ensures
        plan_actions(parts, is_match, floats, m) == plan_actions(parts, is_match, floats, n),
    decreases m,
{
    if n < m {
        lemma_first_plan_error(parts, is_match, floats, n, (m - 1) as nat);
    }
}

fn place_of_word(s: &[char], word: &str) -> (r: usize)
    requires
        word@.len() > 0,
    ensures
        r == (match word_at(s@, word@) {
            Some(i) => i,
            None => s@.len() as int,
        }),
        r <= s@.len(),
        r < s@.len() ==> r + word@.len() <= s.len(),
{
    let low = lower_chars(s);
    let w = chars_of(word);
    let n: usize = w.len();
    let mut i: usize = 0;
    while i < s.len()
        invariant
            i <= s@.len(),
            low@ == ascii_lowered(s@),
            low@.len() == s@.len(),
            w@ == word@,
            n == w@.len(),
            n > 0,
            word_at(s@, word@) == word_from(s@, word@, i as int),
        decreases s@.len() - i,
    {
        if n <= s.len() - i && text_at(&low, &w, i) && (i == 0 || !name_char(s[i - 1])) && (i + n == s.len()
            || !name_char(s[i + n])) {
            proof {
                assert(stands_alone(s@, word@, i as int));
            }
            return i;
        }
        proof {
            assert(!stands_alone(s@, word@, i as int));
        }
        i = i + 1;
    }
    s.len()
}

fn name_char(c: char) -> (r: bool)
    ensures
        r == in_name(c),
{
    alphanumeric(c) || c == '_' || c == '.'
}

/// Whether a text stands in another at `i`.
fn text_at(hay: &[char], needle: &[char], i: usize) -> (r: bool)
    requires
        i + needle@.len() <= hay@.len(),
    ensures
        r == occurs_at(hay@, needle@, i as int),
{
    let len: usize = hay.len();
    let mut k: usize = 0;
    while k < needle.len()
        invariant
            k <= needle@.len(),
            i + needle@.len() <= hay@.len(),
            hay@.len() == len,
            forall|m: int| 0 <= m < k ==> hay@[i + m] == #[trigger] needle@[m],
        decreases needle@.len() - k,
    {
        if hay[i + k] != needle[k] {
            proof {
                let part = hay@.subrange(i as int, i + needle@.len());
                assert(part[k as int] == hay@[i + k]);
            }
            return false;
        }
        k = k + 1;
    }
    proof {
        assert(hay@.subrange(i as int, i + needle@.len()) =~= needle@);
    }
    true
}

fn trimmed_part(s: &[char], from: usize, to: usize) -> (r: Vec<char>)
    requires
        from <= to <= s@.len(),
    ensures
        r@ == trimmed(s@.subrange(from as int, to as int)),
{
    let part = copy_chars(s, from, to);
    trim_chars(&part)
}

/// The three parts of a clause.
fn read_clause(s: &[char]) -> (r: (Vec<char>, Vec<char>, Vec<char>))
    ensures
        (r.0@, r.1@, r.2@) == clause_parts(s@),
{
    proof {
        reveal_strlit("where");
        reveal_strlit("set");
    }
    let n: usize = s.len();
    let wp: usize = place_of_word(s, "where");
    let sp: usize = place_of_word(s, "set");
    let end: usize = if wp <= sp {
        wp
    } else {
        sp
    };
    let word = trimmed_part(s, 0, end);
    let condition: Vec<char> = if wp == n {
        Vec::new()
    } else {
        trimmed_part(
            s,
            wp + 5,
            if sp >= wp + 5 {
                sp
            } else {
                n
            },
        )
    };
    let set: Vec<char> = if sp == n {
        Vec::new()
    } else {
        trimmed_part(
            s,
            sp + 3,
            if wp >= sp + 3 {
                wp
            } else {
                n
            },
        )
    };
    proof {
        assert(trimmed(Seq::<char>::empty()) =~= Seq::<char>::empty());
        let (w, c, t) = clause_parts(s@);
        assert(word@ == w && condition@ =~= c && set@ =~= t);
    }
    (word, condition, set)
}

fn read_action(s: &[char], is_match: bool, floats: &FloatTable) -> (r: Result<MergePlanAction, String>)
    ensures
        match r {
            Ok(a) => plan_action(s@, is_match, *floats) == Ok::<ActionView, Seq<char>>(a@),
            Err(e) => plan_action(s@, is_match, *floats) == Err::<ActionView, Seq<char>>(e@),
        },
{
    let (word, condition, set) = read_clause(s);
    let text = text_of(&word);
    match parse_action_str(&text, is_match) {
        Err(e) => Err(e),
        Ok(action) => {
            let cond = if condition.len() == 0 {
                None
            } else {
                Some(text_of(&condition))
            };
            if set.len() == 0 {
                Ok(MergePlanAction { action, condition: cond, set: None })
            } else {
                match read_set(&set, floats) {
                    Ok(c) => Ok(MergePlanAction { action, condition: cond, set: Some(c) }),
                    Err(e) => Err(e),
                }
            }
        },
    }
}

/// The text of a plan without what stands before it.
fn read_body(s: &str) -> (r: Vec<char>)
    ensures
        r@ == without_when(s@),
{
    let chars = chars_of(s);
    let t = trim_chars(&chars);
    let low = lower_chars(&t);
    let when = chars_of("when matched then ");
    let when_not = chars_of("when not matched then ");
    if has_prefix(&low, &when) {
        let rest = copy_chars(&t, when.len(), t.len());
        proof {
            assert(rest@ =~= t@.skip(when@.len() as int));
        }
        trim_chars(&rest)
    } else if has_prefix(&low, &when_not) {
        let rest = copy_chars(&t, when_not.len(), t.len());
        proof {
            assert(rest@ =~= t@.skip(when_not@.len() as int));
        }
        trim_chars(&rest)
    } else {
        t
    }
}

/// Reads a merge plan: actions separated by semicolons, such as
/// `UPDATE WHERE age >= 18; DELETE WHERE age < 18`. Keywords may be in any case.
pub fn parse_merge_action_string(s: &str, is_match: bool, floats: &FloatTable) -> (r: Result<
    Vec<MergePlanAction>,
    String,
>)
    ensures
        match r {
            Ok(v) => plan_of(s@, is_match, *floats) == Ok::<Seq<ActionView>, Seq<char>>(
                plan_views(v@),
            ),
            Err(e) => plan_of(s@, is_match, *floats) == Err::<Seq<ActionView>, Seq<char>>(e@),
        },
{
    let body = read_body(s);
    let parts = split_chars(&body, ';');
    let ghost pv = char_views(parts@);
    let mut out: Vec<MergePlanAction> = Vec::new();
    let mut i: usize = 0;
    proof {
        assert(plan_views(out@) =~= Seq::<ActionView>::empty());
    }
    while i < parts.len()
        invariant
            i <= parts@.len(),
            body@ == without_when(s@),
            pv == char_views(parts@),
            pv == split(body@, ';'),
            plan_actions(pv, is_match, *floats, i as nat) == Ok::<Seq<ActionView>, Seq<char>>(
                plan_views(out@),
            ),
        decreases parts@.len() - i,
    {
        let c = trim_chars(&parts[i]);
        proof {
            assert(pv[i as int] == parts@[i as int]@);
        }
        if c.len() > 0 {
            match read_action(&c, is_match, floats) {
                Ok(a) => {
                    let ghost before = plan_views(out@);
                    let ghost av = a@;
                    out.push(a);
                    proof {
                        assert(plan_views(out@) =~= before.push(av));
                    }
                },
                Err(e) => {
                    proof {
                        lemma_first_plan_error(pv, is_match, *floats, (i + 1) as nat, pv.len());
                    }
                    return Err(e);
                },
            }
        }
        i = i + 1;
    }
    if out.len() == 0 {
        return Err(message("No valid actions found in: '", &body, "'"));
    }
    Ok(out)
}

/// An entry of a list of actions.
pub enum ActionItem {
    /// Action and condition.
    Pair(String, String),
    Text(String),
    Other,
}

/// How a plan was given.
pub enum ActionParam {
    Text(String),
    List(Vec<ActionItem>),
    /// Actions with their conditions.
    Table(Vec<(String, String)>),
    Other,
}

/// An action with its condition; a blank one is none.
pub open spec fn action_pair(word: Seq<char>, condition: Seq<char>, is_match: bool) -> Result<
    ActionView,
    Seq<char>,
> {
    match action_of(word, is_match) {
        Err(e) => Err(e),
        Ok(action) => Ok(
            ActionView {
                action,
                condition: if trimmed(condition).len() == 0 {
                    None
                } else {
                    Some(condition)
                },
                set: None,
            },
        ),
    }
}

fn read_action_pair(word: &str, condition: &str, is_match: bool) -> (r: Result<MergePlanAction, String>)
    ensures
        match r {
            Ok(a) => action_pair(word@, condition@, is_match) == Ok::<ActionView, Seq<char>>(a@),
            Err(e) => action_pair(word@, condition@, is_match) == Err::<ActionView, Seq<char>>(e@),
        },
{
    match parse_action_str(word, is_match) {
        Err(e) => Err(e),
        Ok(action) => {
            let chars = chars_of(condition);
            let t = trim_chars(&chars);
            let cond = if t.len() == 0 {
                None
            } else {
                Some(condition.to_owned())
            };
            Ok(MergePlanAction { action, condition: cond, set: None })
        },
    }
}

/// The actions of the first `n` entries of a list, or the first error.
pub open spec fn list_actions(
    items: Seq<ActionItem>,
    is_match: bool,
    floats: FloatTable,
    n: nat,
) -> Result<Seq<ActionView>, Seq<char>>
    decreases n,
{
    if n == 0 {
        Ok(Seq::empty())
    } else {
        match list_actions(items, is_match, floats, (n - 1) as nat) {
            Err(e) => Err(e),
            Ok(prev) => match items[n - 1] {
                ActionItem::Pair(w, c) => match action_pair(w@, c@, is_match) {
                    Ok(a) => Ok(prev.push(a)),
                    Err(e) => Err(e),
                },
                ActionItem::Text(s) => match plan_of(s@, is_match, floats) {
                    Ok(more) => Ok(prev + more),
                    Err(e) => Err(e),
                },
                ActionItem::Other => Err(
                    "on_match/on_miss list must contain strings or (action, where) tuples"@,
                ),
            },
        }
    }
}

/// The actions of the first `n` entries of a table, or the first error.
pub open spec fn table_actions(items: Seq<(String, String)>, is_match: bool, n: nat) -> Result<
    Seq<ActionView>,
    Seq<char>,
>
    decreases n,
{
    if n == 0 {
        Ok(Seq::empty())
    } else {
        match table_actions(items, is_match, (n - 1) as nat) {
            Err(e) => Err(e),
            Ok(prev) => match action_pair(items[n - 1].0@, items[n - 1].1@, is_match) {
                Ok(a) => Ok(prev.push(a)),
                Err(e) => Err(e),
            },
        }
    }
}

/// The plan where none is given: update what matches, insert what does not.
pub open spec fn default_plan(is_match: bool) -> Seq<ActionView> {
    seq![
        ActionView {
            action: if is_match {
                MergeActionType::Update
            } else {
                MergeActionType::Insert
            },
            condition: None,
            set: None,
        },
    ]
}

/// The plan that a parameter asks for, or what is wrong with it.
pub open spec fn param_plan(param: Option<ActionParam>, is_match: bool, floats: FloatTable) -> Result<
    Seq<ActionView>,
    Seq<char>,
> {
    match param {
        None => Ok(default_plan(is_match)),
        Some(ActionParam::Text(s)) => plan_of(s@, is_match, floats),
        Some(ActionParam::List(items)) => match list_actions(
            items@,
            is_match,
            floats,
            items@.len(),
        ) {
            Ok(actions) => if actions.len() == 0 {
                Err("on_match/on_miss list is empty"@)
            } else {
                Ok(actions)
            },
            Err(e) => Err(e),
        },
        Some(ActionParam::Table(items)) => match table_actions(items@, is_match, items@.len()) {
            Ok(actions) => if actions.len() == 0 {
                Err("on_match/on_miss dict is empty"@)
            } else {
                Ok(actions)
            },
            Err(e) => Err(e),
        },
        Some(ActionParam::Other) => Err("on_match/on_miss must be a string, list, or dict"@),
    }
}

proof fn lemma_first_list_error(
    items: Seq<ActionItem>,
    is_match: bool,
    floats: FloatTable,
    n: nat,
    m: nat,
)
    requires
        n <= m,
        list_actions(items, is_match, floats, n) is Err,
    ensures
        list_actions(items, is_match, floats, m) == list_actions(items, is_match, floats, n),
    decreases m,
{
    if n < m {
        lemma_first_list_error(items, is_match, floats, n, (m - 1) as nat);
    }
}

proof fn lemma_first_table_error(items: Seq<(String, String)>, is_match: bool, n: nat, m: nat)
    requires
        n <= m,
        table_actions(items, is_match, n) is Err,
    ensures
        table_actions(items, is_match, m) == table_actions(items, is_match, n),
    decreases m,
{
    if n < m {
        lemma_first_table_error(items, is_match, n, (m - 1) as nat);
    }
}

pub open spec fn opt_action(param: Option<&ActionParam>) -> Option<ActionParam> {
    match param {
        Some(p) => Some(*p),
        None => None,
    }
}

/// Reads a plan from a parameter.
pub fn parse_merge_action(param: Option<&ActionParam>, is_match: bool, floats: &FloatTable) -> (r: Result<
    Vec<MergePlanAction>,
    String,
>)
    ensures
        match r {
            Ok(v) => param_plan(opt_action(param), is_match, *floats) == Ok::<
                Seq<ActionView>,
                Seq<char>,
            >(plan_views(v@)),
            Err(e) => param_plan(opt_action(param), is_match, *floats) == Err::<
                Seq<ActionView>,
                Seq<char>,
            >(e@),
        },
{
    let mut out: Vec<MergePlanAction> = Vec::new();
    proof {
        assert(plan_views(out@) =~= Seq::<ActionView>::empty());
    }
    match param {
        None => {
            let action = if is_match {
                MergeActionType::Update
            } else {
                MergeActionType::Insert
            };
            out.push(MergePlanAction { action, condition: None, set: None });
            proof {
                assert(plan_views(out@) =~= default_plan(is_match));
            }
            Ok(out)
        },
        Some(ActionParam::Text(s)) => parse_merge_action_string(s, is_match, floats),
        Some(ActionParam::List(items)) => {
            let mut i: usize = 0;
            while i < items.len()
                invariant
                    i <= items@.len(),
                    param is Some,
                    *(param->0) == ActionParam::List(*items),
                    list_actions(items@, is_match, *floats, i as nat) == Ok::<
                        Seq<ActionView>,
                        Seq<char>,
                    >(plan_views(out@)),
                decreases items@.len() - i,
            {
                let ghost before = plan_views(out@);
                let ghost here = list_actions(items@, is_match, *floats, (i + 1) as nat);
                proof {
                    if here is Err {
                        lemma_first_list_error(
                            items@,
                            is_match,
                            *floats,
                            (i + 1) as nat,
                            items@.len(),
                        );
                    }
                }
                match &items[i] {
                    ActionItem::Pair(w, c) => match read_action_pair(w, c, is_match) {
                        Ok(a) => {
                            let ghost av = a@;
                            out.push(a);
                            proof {
                                assert(plan_views(out@) =~= before.push(av));
                            }
                        },
                        Err(e) => {
                            return Err(e);
                        },
                    },
                    ActionItem::Text(s) => match parse_merge_action_string(s, is_match, floats) {
                        Ok(more) => {
                            let ghost mv = plan_views(more@);
                            let mut rest = more;
                            out.append(&mut rest);
                            proof {
                                assert(plan_views(out@) =~= before + mv);
                            }
                        },
                        Err(e) => {
                            return Err(e);
                        },
                    },
                    ActionItem::Other => {
                        return Err(
                            "on_match/on_miss list must contain strings or (action, where) tuples".to_owned(),
                        );
                    },
                }
                i = i + 1;
            }
            if out.len() == 0 {
                return Err("on_match/on_miss list is empty".to_owned());
            }
            Ok(out)
        },
        Some(ActionParam::Table(items)) => {
            let mut i: usize = 0;
            while i < items.len()
                invariant
                    i <= items@.len(),
                    param is Some,
                    *(param->0) == ActionParam::Table(*items),
                    table_actions(items@, is_match, i as nat) == Ok::<Seq<ActionView>, Seq<char>>(
                        plan_views(out@),
                    ),
                decreases items@.len() - i,
            {
                let ghost before = plan_views(out@);
                let ghost here = table_actions(items@, is_match, (i + 1) as nat);
                proof {
                    if here is Err {
                        lemma_first_table_error(items@, is_match, (i + 1) as nat, items@.len());
                    }
                }
                match read_action_pair(&items[i].0, &items[i].1, is_match) {
                    Ok(a) => {
                        let ghost av = a@;
                        out.push(a);
                        proof {
                            assert(plan_views(out@) =~= before.push(av));
                        }
                    },
                    Err(e) => {
                        return Err(e);
                    },
                }
                i = i + 1;
            }
            if out.len() == 0 {
                return Err("on_match/on_miss dict is empty".to_owned());
            }
            Ok(out)
        },
        Some(ActionParam::Other) => Err(
            "on_match/on_miss must be a string, list, or dict".to_owned(),
        ),
    }
}

/// The plan for target rows without a source row: that of the parameter, else to
/// leave them alone.
pub open spec fn miss_target_plan(param: Option<ActionParam>, floats: FloatTable) -> Result<
    Seq<ActionView>,
    Seq<char>,
> {
    match param {
        None => Ok(
            seq![ActionView { action: MergeActionType::Skip, condition: None, set: None }],
        ),
        Some(_) => param_plan(param, true, floats),
    }
}

/// Reads the plan for target rows without a source row.
pub fn parse_miss_target(param: Option<&ActionParam>, floats: &FloatTable) -> (r: Result<
    Vec<MergePlanAction>,
    String,
>)
    ensures
        match r {
            Ok(v) => miss_target_plan(opt_action(param), *floats) == Ok::<Seq<ActionView>, Seq<char>>(
                plan_views(v@),
            ),
            Err(e) => miss_target_plan(opt_action(param), *floats) == Err::<Seq<ActionView>, Seq<char>>(
                e@,
            ),
        },
{
    match param {
        None => {
            let mut out: Vec<MergePlanAction> = Vec::new();
            out.push(MergePlanAction { action: MergeActionType::Skip, condition: None, set: None });
            proof {
                assert(plan_views(out@) =~= seq![
                    ActionView { action: MergeActionType::Skip, condition: None, set: None },
                ]);
            }
            Ok(out)
        },
        Some(_) => parse_merge_action(param, true, floats),
    }
}

/// The text of the value in a part of a SET clause; the empty text where it has
/// none.
pub open spec fn set_text(part: Seq<char>) -> Seq<char> {
    let p = trimmed(part);
    match first_at(p, "="@, 0) {
        Some(i) => trimmed(p.subrange(i + 1, p.len() as int)),
        None => Seq::empty(),
    }
}

/// The texts of the values in a SET clause.
pub open spec fn set_texts(s: Seq<char>) -> Seq<Seq<char>> {
    let parts = split(trimmed(s), ',');
    Seq::new(parts.len(), |i: int| set_text(parts[i]))
}

/// The texts of the values in the first `n` clauses of a plan.
pub open spec fn clause_texts(parts: Seq<Seq<char>>, n: nat) -> Seq<Seq<char>>
    decreases n,
{
    if n == 0 {
        Seq::empty()
    } else {
        clause_texts(parts, (n - 1) as nat) + set_texts(clause_parts(trimmed(parts[n - 1])).2)
    }
}

/// The texts of the values in a plan.
pub open spec fn plan_texts(s: Seq<char>) -> Seq<Seq<char>> {
    let parts = split(without_when(s), ';');
    clause_texts(parts, parts.len())
}

/// The texts of the values in the first `n` entries of a list of actions.
pub open spec fn item_texts(items: Seq<ActionItem>, n: nat) -> Seq<Seq<char>>
    decreases n,
{
    if n == 0 {
        Seq::empty()
    } else {
        item_texts(items, (n - 1) as nat) + match items[n - 1] {
            ActionItem::Text(s) => plan_texts(s@),
            _ => Seq::empty(),
        }
    }
}

/// The texts of a parameter that may be read as floats.
pub open spec fn param_texts(param: Option<ActionParam>) -> Seq<Seq<char>> {
    match param {
        Some(ActionParam::Text(s)) => plan_texts(s@),
        Some(ActionParam::List(items)) => item_texts(items@, items@.len()),
        _ => Seq::empty(),
    }
}

fn push_set_texts(out: &mut Vec<String>, s: &[char])
    ensures
        text_views(final(out)@) == text_views(old(out)@) + set_texts(s@),
{
    let t = trim_chars(s);
    let parts = split_chars(&t, ',');
    let ghost pv = char_views(parts@);
    let ghost want = set_texts(s@);
    let ghost first = text_views(out@);
    let eq = chars_of("=");
    let mut i: usize = 0;
    proof {
        reveal_strlit("=");
        assert(first + want.take(0) =~= first);
    }
    while i < parts.len()
        invariant
            i <= parts@.len(),
            pv == char_views(parts@),
            pv == split(trimmed(s@), ','),
            want == set_texts(s@),
            want.len() == parts@.len(),
            eq@ == "="@,
            "="@.len() == 1,
            text_views(out@) == first + want.take(i as int),
        decreases parts@.len() - i,
    {
        let ghost before = text_views(out@);
        let p = trim_chars(&parts[i]);
        proof {
            assert(pv[i as int] == parts@[i as int]@);
        }
        let value: Vec<char> = match find(&p, &eq, 0) {
            Some(k) => trimmed_part(&p, k + 1, p.len()),
            None => Vec::new(),
        };
        let text = text_of(&value);
        let ghost x = text@;
        proof {
            assert(x =~= set_text(pv[i as int]));
        }
        out.push(text);
        proof {
            assert(text_views(out@) =~= before.push(x));
            assert(want.take(i as int + 1) =~= want.take(i as int).push(x));
            assert(first + want.take(i as int).push(x) =~= (first + want.take(i as int)).push(x));
        }
        i = i + 1;
    }
    proof {
        assert(want.take(i as int) =~= want);
    }
}

fn push_plan_texts(out: &mut Vec<String>, s: &str)
    ensures
        text_views(final(out)@) == text_views(old(out)@) + plan_texts(s@),
{
    let body = read_body(s);
    let parts = split_chars(&body, ';');
    let ghost pv = char_views(parts@);
    let ghost first = text_views(out@);
    let mut i: usize = 0;
    proof {
        assert(first + Seq::<Seq<char>>::empty() =~= first);
    }
    while i < parts.len()
        invariant
            i <= parts@.len(),
            pv == char_views(parts@),
            text_views(out@) == first + clause_texts(pv, i as nat),
        decreases parts@.len() - i,
    {
        proof {
            assert(pv[i as int] == parts@[i as int]@);
        }
        let c = trim_chars(&parts[i]);
        let (_word, _condition, set) = read_clause(&c);
        let ghost before = clause_texts(pv, i as nat);
        push_set_texts(out, &set);
        proof {
            let more = set_texts(clause_parts(trimmed(pv[i as int])).2);
            assert(first + (before + more) =~= first + before + more);
        }
        i = i + 1;
    }
}

/// Lists the texts of a parameter that may be read as floats: what a table of
/// floats has to tell about.
pub fn action_texts(param: Option<&ActionParam>) -> (r: Vec<String>)
    ensures
        text_views(r@) == param_texts(opt_action(param)),
{
    let mut out: Vec<String> = Vec::new();
    proof {
        assert(text_views(out@) =~= Seq::<Seq<char>>::empty());
    }
    match param {
        Some(ActionParam::Text(s)) => {
            push_plan_texts(&mut out, s);
            proof {
                assert(text_views(out@) =~= plan_texts(s@));
            }
        },
        Some(ActionParam::List(items)) => {
            let mut i: usize = 0;
            while i < items.len()
                invariant
                    i <= items@.len(),
                    text_views(out@) == item_texts(items@, i as nat),
                decreases items@.len() - i,
            {
                let ghost before = text_views(out@);
                match &items[i] {
                    ActionItem::Text(s) => {
                        push_plan_texts(&mut out, s);
                    },
                    _ => {
                        proof {
                            assert(before + Seq::<Seq<char>>::empty() =~= before);
                        }
                    },
                }
                i = i + 1;
            }
        },
        _ => {},
    }
    out
}

proof fn lemma_set_alike(parts: Seq<Seq<char>>, a: FloatTable, b: FloatTable, n: nat)
    requires
        n <= parts.len(),
        forall|i: int| 0 <= i < parts.len() ==> a.reading(set_text(#[trigger] parts[i])) == b.reading(
            set_text(parts[i]),
        ),
    ensures
        set_parts(parts, a, n) == set_parts(parts, b, n),
    decreases n,
{
    if n > 0 {
        lemma_set_alike(parts, a, b, (n - 1) as nat);
        assert(a.reading(set_text(parts[n - 1])) == b.reading(set_text(parts[n - 1])));
    }
}

proof fn lemma_plan_alike(parts: Seq<Seq<char>>, is_match: bool, a: FloatTable, b: FloatTable, n: nat)
    requires
        tell_alike(a, b, clause_texts(parts, n)),
    ensures
        plan_actions(parts, is_match, a, n) == plan_actions(parts, is_match, b, n),
    decreases n,
{
    if n > 0 {
        let all = clause_texts(parts, n);
        let prev = clause_texts(parts, (n - 1) as nat);
        let set = clause_parts(trimmed(parts[n - 1])).2;
        let texts = set_texts(set);
        assert forall|i: int| 0 <= i < prev.len() implies a.reading(#[trigger] prev[i]) == b.reading(prev[i]) by {
            assert(all[i] == prev[i]);
        }
        lemma_plan_alike(parts, is_match, a, b, (n - 1) as nat);
        let pieces = split(trimmed(set), ',');
        assert forall|i: int| 0 <= i < pieces.len() implies a.reading(set_text(#[trigger] pieces[i])) == b.reading(
            set_text(pieces[i]),
        ) by {
            assert(texts[i] == set_text(pieces[i]));
            assert(all[prev.len() + i] == texts[i]);
        }
        lemma_set_alike(pieces, a, b, pieces.len());
    }
}

proof fn lemma_items_alike(items: Seq<ActionItem>, is_match: bool, a: FloatTable, b: FloatTable, n: nat)
    requires
        n <= items.len(),
        tell_alike(a, b, item_texts(items, n)),
    ensures
        list_actions(items, is_match, a, n) == list_actions(items, is_match, b, n),
    decreases n,
{
    if n > 0 {
        let all = item_texts(items, n);
        let prev = item_texts(items, (n - 1) as nat);
        assert forall|i: int| 0 <= i < prev.len() implies a.reading(#[trigger] prev[i]) == b.reading(prev[i]) by {
            assert(all[i] == prev[i]);
        }
        lemma_items_alike(items, is_match, a, b, (n - 1) as nat);
        if let ActionItem::Text(s) = items[n - 1] {
            let texts = plan_texts(s@);
            assert forall|i: int| 0 <= i < texts.len() implies a.reading(#[trigger] texts[i]) == b.reading(
                texts[i],
            ) by {
                assert(all[prev.len() + i] == texts[i]);
            }
            let parts = split(without_when(s@), ';');
            lemma_plan_alike(parts, is_match, a, b, parts.len());
        }
    }
}

/// A plan depends on a table of floats only in what it tells of the listed texts.
pub proof fn plan_needs_only_its_texts(param: Option<ActionParam>, is_match: bool, a: FloatTable, b: FloatTable)
    requires
        tell_alike(a, b, param_texts(param)),
    ensures
        param_plan(param, is_match, a) == param_plan(param, is_match, b),
        miss_target_plan(param, a) == miss_target_plan(param, b),
{
    match param {
        Some(ActionParam::Text(s)) => {
            let parts = split(without_when(s@), ';');
            lemma_plan_alike(parts, is_match, a, b, parts.len());
            lemma_plan_alike(parts, true, a, b, parts.len());
        },
        Some(ActionParam::List(items)) => {
            lemma_items_alike(items@, is_match, a, b, items@.len());
            lemma_items_alike(items@, true, a, b, items@.len());
        },
        _ => {},
    }
}

} // verus!
