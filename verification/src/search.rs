//! Text search: words, and how often they stand in which documents.

use vstd::prelude::*;
use vstd::string::*;
use crate::intern::{place, Interner};
use crate::json::{json_shown, json_text, member, Json, JsonValue};
use crate::text::{chars_of, copy_text, push_chars, same_text, text_of, text_views};
use crate::udf::{alnum, alphanumeric};

verus! {

/// A character in lower case: one character, or more.
pub uninterp spec fn lower_char(c: char) -> Seq<char>;

/// `char::to_lowercase`, collected: by the Unicode mapping, which is named and
/// not written out. On ASCII the letters A to Z become a to z and nothing else
/// changes.
#[verifier::external_body]
fn lower_of(c: char) -> (r: Vec<char>)
    ensures
        r@ == lower_char(c),
        (c as u32) < 128 ==> r@ == seq![crate::text::ascii_lower(c)],
{
    c.to_lowercase().collect()
}

/// A character in lower case. What it is for an ASCII character is known.
pub open spec fn lowered_char(c: char) -> Seq<char> {
    if (c as u32) < 128 {
        seq![crate::text::ascii_lower(c)]
    } else {
        lower_char(c)
    }
}

/// Words too common to search for.
pub open spec fn is_stop_word(w: Seq<char>) -> bool {
    w == "a"@ || w == "an"@ || w == "and"@ || w == "are"@ || w == "as"@ || w == "at"@ || w == "be"@ || w
        == "but"@ || w == "by"@ || w == "for"@ || w == "from"@ || w == "has"@ || w == "have"@ || w
        == "he"@ || w == "in"@ || w == "is"@ || w == "it"@ || w == "its"@ || w == "of"@ || w == "on"@
        || w == "or"@ || w == "that"@ || w == "the"@ || w == "this"@ || w == "to"@ || w == "was"@ || w
        == "were"@ || w == "will"@ || w == "with"@ || w == "i"@ || w == "you"@ || w == "we"@ || w
        == "they"@ || w == "them"@ || w == "his"@ || w == "her"@ || w == "she"@ || w == "him"@ || w
        == "not"@ || w == "no"@ || w == "do"@ || w == "does"@ || w == "did"@ || w == "had"@ || w
        == "been"@ || w == "being"@ || w == "am"@ || w == "if"@ || w == "then"@ || w == "else"@ || w
        == "when"@ || w == "where"@ || w == "which"@ || w == "who"@ || w == "whom"@ || w == "what"@ || w
        == "why"@ || w == "how"@ || w == "all"@ || w == "any"@ || w == "each"@ || w == "few"@ || w
        == "more"@ || w == "most"@ || w == "other"@ || w == "some"@ || w == "such"@ || w == "only"@ || w
        == "own"@ || w == "same"@ || w == "so"@ || w == "than"@ || w == "too"@ || w == "very"@ || w
        == "can"@ || w == "just"@ || w == "should"@ || w == "now"@
}

fn stop_word(w: &str) -> (r: bool)
    ensures
        r == is_stop_word(w@),
{
    same_text(w, "a") || same_text(w, "an") || same_text(w, "and") || same_text(w, "are") || same_text(
        w,
        "as",
    ) || same_text(w, "at") || same_text(w, "be") || same_text(w, "but") || same_text(w, "by")
        || same_text(w, "for") || same_text(w, "from") || same_text(w, "has") || same_text(w, "have")
        || same_text(w, "he") || same_text(w, "in") || same_text(w, "is") || same_text(w, "it")
        || same_text(w, "its") || same_text(w, "of") || same_text(w, "on") || same_text(w, "or")
        || same_text(w, "that") || same_text(w, "the") || same_text(w, "this") || same_text(w, "to")
        || same_text(w, "was") || same_text(w, "were") || same_text(w, "will") || same_text(w, "with")
        || same_text(w, "i") || same_text(w, "you") || same_text(w, "we") || same_text(w, "they")
        || same_text(w, "them") || same_text(w, "his") || same_text(w, "her") || same_text(w, "she")
        || same_text(w, "him") || same_text(w, "not") || same_text(w, "no") || same_text(w, "do")
        || same_text(w, "does") || same_text(w, "did") || same_text(w, "had") || same_text(w, "been")
        || same_text(w, "being") || same_text(w, "am") || same_text(w, "if") || same_text(w, "then")
        || same_text(w, "else") || same_text(w, "when") || same_text(w, "where") || same_text(
        w,
        "which",
    ) || same_text(w, "who") || same_text(w, "whom") || same_text(w, "what") || same_text(w, "why")
        || same_text(w, "how") || same_text(w, "all") || same_text(w, "any") || same_text(w, "each")
        || same_text(w, "few") || same_text(w, "more") || same_text(w, "most") || same_text(w, "other")
        || same_text(w, "some") || same_text(w, "such") || same_text(w, "only") || same_text(w, "own")
        || same_text(w, "same") || same_text(w, "so") || same_text(w, "than") || same_text(w, "too")
        || same_text(w, "very") || same_text(w, "can") || same_text(w, "just") || same_text(w, "should")
        || same_text(w, "now")
}

/// A word is worth keeping: at least two characters, and no stop word.
pub open spec fn is_token(w: Seq<char>) -> bool {
    w.len() >= 2 && !is_stop_word(w)
}

/// The tokens with one more word, where it is worth keeping.
pub open spec fn token_pushed(tokens: Seq<Seq<char>>, w: Seq<char>) -> Seq<Seq<char>> {
    if is_token(w) {
        tokens.push(w)
    } else {
        tokens
    }
}

/// A character of a word.
pub open spec fn in_word(c: char) -> bool {
    alnum(c) || c == '_'
}

/// The tokens and the word under way after a text.
pub open spec fn scanned(s: Seq<char>) -> (Seq<Seq<char>>, Seq<char>)
    decreases s.len(),
{
    if s.len() == 0 {
        (Seq::empty(), Seq::empty())
    } else {
        let (tokens, word) = scanned(s.drop_last());
        let c = s.last();
        if in_word(c) {
            (tokens, word + lowered_char(c))
        } else if word.len() > 0 {
            (token_pushed(tokens, word), Seq::empty())
        } else {
            (tokens, word)
        }
    }
}

/// The tokens of a text: its words in lower case, without short ones and stop
/// words.
pub open spec fn tokens_of(s: Seq<char>) -> Seq<Seq<char>> {
    let (tokens, word) = scanned(s);
    if word.len() > 0 {
        token_pushed(tokens, word)
    } else {
        tokens
    }
}

/// Adds a word, where it is worth keeping.
pub fn push_token(out: &mut Vec<String>, tok: &str)
    ensures
        text_views(final(out)@) == token_pushed(text_views(old(out)@), tok@),
{
    if chars_of(tok).len() < 2 {
        return ;
    }
    if stop_word(tok) {
        return ;
    }
    let ghost before = text_views(out@);
    out.push(copy_text(tok));
    proof {
        assert(text_views(out@) =~= before.push(tok@));
    }
}

/// Splits a text into tokens.
pub fn tokenize(text: &str) -> (r: Vec<String>)
    ensures
        text_views(r@) == tokens_of(text@),
{
    let chars = chars_of(text);
    let mut out: Vec<String> = Vec::new();
    let mut word: Vec<char> = Vec::new();
    let mut i: usize = 0;
    proof {
        assert(chars@.take(0) =~= Seq::<char>::empty());
        assert(text_views(out@) =~= Seq::<Seq<char>>::empty());
    }
    while i < chars.len()
        invariant
            i <= chars@.len(),
            (text_views(out@), word@) == scanned(chars@.take(i as int)),
        decreases chars@.len() - i,
    {
        let c = chars[i];
        proof {
            assert(chars@.take(i as int + 1).drop_last() =~= chars@.take(i as int));
            assert(chars@.take(i as int + 1).last() == c);
        }
        if alphanumeric(c) || c == '_' {
            let low = lower_of(c);
            push_chars(&mut word, &low);
        } else if word.len() > 0 {
            let tok = text_of(&word);
            push_token(&mut out, &tok);
            word = Vec::new();
            proof {
                assert(word@ =~= Seq::<char>::empty());
            }
        }
        i = i + 1;
    }
    proof {
        assert(chars@.take(i as int) =~= chars@);
    }
    if word.len() > 0 {
        let tok = text_of(&word);
        push_token(&mut out, &tok);
    }
    out
}

/// Every token has at least two characters and is no stop word.
pub proof fn tokens_are_kept_words(s: Seq<char>, i: int)
    requires
        0 <= i < tokens_of(s).len(),
    ensures
        is_token(tokens_of(s)[i]),
{
    lemma_scanned_tokens(s);
}

proof fn lemma_scanned_tokens(s: Seq<char>)
    ensures
        forall|i: int| 0 <= i < scanned(s).0.len() ==> is_token(#[trigger] scanned(s).0[i]),
    decreases s.len(),
{
    if s.len() > 0 {
        lemma_scanned_tokens(s.drop_last());
        let before = scanned(s.drop_last()).0;
        let after = scanned(s).0;
        assert forall|i: int| 0 <= i < after.len() implies is_token(#[trigger] after[i]) by {
            if i < before.len() {
                assert(after[i] == before[i]);
            }
        }
    }
}

/// The tokens of two texts with a character between them that is in no word are
/// the tokens of the one and then those of the other.
pub proof fn tokens_of_joined(a: Seq<char>, sep: char, b: Seq<char>)
    requires
        !in_word(sep),
    ensures
        tokens_of(a.push(sep) + b) == tokens_of(a) + tokens_of(b),
{
    let s = a.push(sep);
    assert(s.drop_last() =~= a);
    assert(scanned(s).0 == tokens_of(a) && scanned(s).1.len() == 0);
    assert(scanned(s).1 =~= Seq::<char>::empty());
    lemma_scan_after(s, b);
    let (t, w) = scanned(b);
    if w.len() > 0 && is_token(w) {
        assert(tokens_of(a) + t.push(w) =~= (tokens_of(a) + t).push(w));
    }
}

proof fn lemma_scan_after(a: Seq<char>, b: Seq<char>)
    requires
        scanned(a).1 == Seq::<char>::empty(),
    ensures
        scanned(a + b) == (scanned(a).0 + scanned(b).0, scanned(b).1),
    decreases b.len(),
{
    if b.len() == 0 {
        assert(a + b =~= a);
        assert(scanned(a).0 + Seq::<Seq<char>>::empty() =~= scanned(a).0);
    } else {
        lemma_scan_after(a, b.drop_last());
        assert((a + b).drop_last() =~= a + b.drop_last());
        let (t, w) = scanned(b.drop_last());
        if !in_word(b.last()) && w.len() > 0 && is_token(w) {
            assert(scanned(a).0 + t.push(w) =~= (scanned(a).0 + t).push(w));
        }
    }
}

/// The text of a cell to search in: a text as it is, anything else as JSON,
/// nothing where the column is missing.
pub open spec fn column_text(row: Json, column: Seq<char>) -> Seq<char> {
    match member(row, column) {
        Some(Json::String(s)) => s,
        Some(v) => json_shown(v),
        None => Seq::empty(),
    }
}

pub fn row_column_text(row: &JsonValue, column: &str) -> (r: String)
    ensures
        r@ == column_text(row@, column@),
{
    match row.get(column) {
        Some(JsonValue::String(s)) => copy_text(s),
        Some(v) => json_text(v),
        None => String::new(),
    }
}

/// The texts of several columns, with spaces between them.
pub open spec fn columns_text(row: Json, columns: Seq<Seq<char>>) -> Seq<char>
    decreases columns.len(),
{
    if columns.len() == 0 {
        Seq::empty()
    } else {
        let last = column_text(row, columns.last());
        if columns.len() == 1 {
            last
        } else {
            columns_text(row, columns.drop_last()).push(' ') + last
        }
    }
}

pub open spec fn strs_views(v: Seq<&str>) -> Seq<Seq<char>> {
    Seq::new(v.len(), |i: int| v[i]@)
}

/// Joins the texts of several columns.
pub fn row_text(row: &JsonValue, columns: &[&str]) -> (r: String)
    ensures
        r@ == columns_text(row@, strs_views(columns@)),
{
    let ghost all = strs_views(columns@);
    let mut out: Vec<char> = Vec::new();
    let mut i: usize = 0;
    proof {
        assert(all.take(0) =~= Seq::<Seq<char>>::empty());
    }
    while i < columns.len()
        invariant
            i <= columns@.len(),
            all == strs_views(columns@),
            out@ == columns_text(row@, all.take(i as int)),
        decreases columns@.len() - i,
    {
        proof {
            assert(all.take(i as int + 1).drop_last() =~= all.take(i as int));
            assert(all.take(i as int + 1).last() == all[i as int]);
        }
        if i > 0 {
            out.push(' ');
        }
        let text = row_column_text(row, columns[i]);
        let chars = chars_of(&text);
        let ghost before = out@;
        push_chars(&mut out, &chars);
        proof {
            if i == 0 {
                assert(out@ =~= chars@);
            }
        }
        i = i + 1;
    }
    proof {
        assert(all.take(i as int) =~= all);
    }
    text_of(&out)
}

/// How often a term stands in a list.
pub open spec fn occurrences(tokens: Seq<Seq<char>>, term: Seq<char>) -> nat
    decreases tokens.len(),
{
    if tokens.len() == 0 {
        0
    } else {
        occurrences(tokens.drop_last(), term) + if tokens.last() == term {
            1nat
        } else {
            0nat
        }
    }
}

/// In how many of the documents a term stands.
pub open spec fn documents_with(docs: Seq<Seq<Seq<char>>>, term: Seq<char>) -> nat
    decreases docs.len(),
{
    if docs.len() == 0 {
        0
    } else {
        documents_with(docs.drop_last(), term) + if occurrences(docs.last(), term) > 0 {
            1nat
        } else {
            0nat
        }
    }
}

/// How often each of a document's terms stands in it.
struct TermCounts {
    index: Interner,
    counts: Vec<usize>,
    len: usize,
}

impl TermCounts {
    closed spec fn counts_of(&self, tokens: Seq<Seq<char>>) -> bool {
        &&& self.index.wf()
        &&& self.counts@.len() == self.index.keys().len()
        &&& self.len == tokens.len()
        &&& forall|term: Seq<char>|
            #[trigger] occurrences(tokens, term) == match place(self.index.keys(), term) {
                Some(i) => self.counts@[i] as nat,
                None => 0,
            }
        &&& forall|i: int| 0 <= i < self.counts@.len() ==> 0 < #[trigger] self.counts@[i] <= tokens.len()
    }
}

fn count_terms(tokens: &[String]) -> (r: TermCounts)
    ensures
        r.counts_of(text_views(tokens@)),
{
    let ghost all = text_views(tokens@);
    let mut index = Interner::new();
    let mut counts: Vec<usize> = Vec::new();
    let mut i: usize = 0;
    proof {
        assert(all.take(0) =~= Seq::<Seq<char>>::empty());
    }
    while i < tokens.len()
        invariant
            i <= tokens@.len(),
            all == text_views(tokens@),
            index.wf(),
            counts@.len() == index.keys().len(),
            forall|term: Seq<char>|
                #[trigger] occurrences(all.take(i as int), term) == match place(index.keys(), term) {
                    Some(k) => counts@[k] as nat,
                    None => 0,
                },
            forall|k: int| 0 <= k < counts@.len() ==> 0 < #[trigger] counts@[k] <= i,
        decreases tokens@.len() - i,
    {
        let ghost keys0 = index.keys();
        let ghost counts0 = counts@;
        let ghost t = all[i as int];
        proof {
            assert(all.take(i as int + 1).drop_last() =~= all.take(i as int));
            assert(all.take(i as int + 1).last() == t);
            index.keys_are_distinct();
        }
        match index.get(&tokens[i]) {
            Some(k) => {
                counts[k] = counts[k] + 1;
                proof {
                    assert forall|term: Seq<char>|
                        #[trigger] occurrences(all.take(i as int + 1), term) == match place(
                            index.keys(),
                            term,
                        ) {
                            Some(m) => counts@[m] as nat,
                            None => 0,
                        } by {
                        assert(occurrences(all.take(i as int), term) == match place(keys0, term) {
                            Some(m) => counts0[m] as nat,
                            None => 0,
                        });
                        if term != t && keys0.contains(term) {
                            let m = keys0.index_of(term);
                            assert(keys0[m] == term);
                        }
                    }
                }
            },
            None => {
                index.add(&tokens[i]);
                counts.push(1);
                proof {
                    index.keys_are_distinct();
                    let n = keys0.len() as int;
                    assert(index.keys()[n] == t);
                    assert forall|term: Seq<char>|
                        #[trigger] occurrences(all.take(i as int + 1), term) == match place(
                            index.keys(),
                            term,
                        ) {
                            Some(m) => counts@[m] as nat,
                            None => 0,
                        } by {
                        assert(occurrences(all.take(i as int), term) == match place(keys0, term) {
                            Some(m) => counts0[m] as nat,
                            None => 0,
                        });
                        lemma_place_push(keys0, t, term);
                    }
                }
            },
        }
        i = i + 1;
    }
    proof {
        assert(all.take(i as int) =~= all);
    }
    TermCounts { index, counts, len: tokens.len() }
}

/// A new last text changes no other text's place.
proof fn lemma_place_push(keys: Seq<Seq<char>>, new: Seq<char>, term: Seq<char>)
    requires
        keys.no_duplicates(),
        !keys.contains(new),
    ensures
        place(keys.push(new), term) == if term == new {
            Some(keys.len() as int)
        } else {
            place(keys, term)
        },
{
    let after = keys.push(new);
    let n = keys.len() as int;
    assert(after[n] == new);
    assert(after.no_duplicates()) by {
        assert forall|i: int, j: int|
            0 <= i < after.len() && 0 <= j < after.len() && i != j implies #[trigger] after[i]
            != #[trigger] after[j] by {
            if i < n && j < n {
                assert(keys[i] != keys[j]);
            } else if i < n {
                assert(keys.contains(keys[i]));
            } else if j < n {
                assert(keys.contains(keys[j]));
            }
        }
    }
    if term == new {
        assert(after.contains(term));
        assert(after.index_of(term) == n);
    } else if keys.contains(term) {
        let m = keys.index_of(term);
        assert(keys[m] == term);
        assert(after[m] == term);
        assert(after.contains(term));
        assert(after.index_of(term) == m);
    } else if after.contains(term) {
        let m = choose|m: int| 0 <= m < after.len() && after[m] == term;
        assert(m < n ==> keys[m] == term);
    }
}

/// The default for how soon more occurrences of a term count less: the float
/// one and a fifth.
pub const DEFAULT_K1: u64 = 0x3FF3_3333_3333_3333;

/// The default for how much the length of a document counts: the float three
/// quarters.
pub const DEFAULT_B: u64 = 0x3FE8_0000_0000_0000;

/// The terms of a query that stand in a document, in the order of the query: in
/// how many documents each stands, and how often in this one.
pub open spec fn hits_in(docs: Seq<Seq<Seq<char>>>, doc: int, query: Seq<Seq<char>>) -> Seq<(usize, usize)>
    decreases query.len(),
{
    if query.len() == 0 || doc >= docs.len() {
        Seq::empty()
    } else {
        let prev = hits_in(docs, doc, query.drop_last());
        let tf = occurrences(docs[doc], query.last());
        if tf > 0 {
            prev.push((documents_with(docs, query.last()) as usize, tf as usize))
        } else {
            prev
        }
    }
}

/// A text index: which terms stand in which documents, and how often; with the
/// two parameters of the score, as the bit patterns of floats.
pub struct Bm25 {
    k1: u64,
    b: u64,
    docs: Vec<TermCounts>,
    tokens: Ghost<Seq<Seq<Seq<char>>>>,
}

impl Bm25 {
    /// The tokens of the documents.
    pub closed spec fn docs(&self) -> Seq<Seq<Seq<char>>> {
        self.tokens@
    }

    pub closed spec fn wf(&self) -> bool {
        &&& self.tokens@.len() == self.docs@.len()
        &&& forall|i: int|
            0 <= i < self.docs@.len() ==> (#[trigger] self.docs@[i]).counts_of(self.tokens@[i])
    }

    /// The two parameters.
    pub closed spec fn params(&self) -> (u64, u64) {
        (self.k1, self.b)
    }

    /// The two parameters, as bit patterns.
    pub fn get_params(&self) -> (r: (u64, u64))
        ensures
            r == self.params(),
    {
        (self.k1, self.b)
    }

    /// An index without documents, with the default parameters.
    pub fn new() -> (r: Bm25)
        ensures
            r.wf(),
            r.docs() == Seq::<Seq<Seq<char>>>::empty(),
            r.params() == (DEFAULT_K1, DEFAULT_B),
    {
        Bm25::with_params(DEFAULT_K1, DEFAULT_B)
    }

    /// An index without documents.
    pub fn with_params(k1: u64, b: u64) -> (r: Bm25)
        ensures
            r.wf(),
            r.docs() == Seq::<Seq<Seq<char>>>::empty(),
            r.params() == (k1, b),
    {
        Bm25 { k1, b, docs: Vec::new(), tokens: Ghost(Seq::empty()) }
    }

    /// Adds a document; its number is the next.
    pub fn add_document(&mut self, tokens: &[String]) -> (r: usize)
        requires
            old(self).wf(),
        ensures
            final(self).wf(),
            r == old(self).docs().len(),
            final(self).docs() == old(self).docs().push(text_views(tokens@)),
            final(self).params() == old(self).params(),
    {
        let n: usize = self.docs.len();
        let counts = count_terms(tokens);
        let ghost before = self.tokens@;
        let ghost docs0 = self.docs@;
        self.docs.push(counts);
        self.tokens = Ghost(before.push(text_views(tokens@)));
        proof {
            assert forall|i: int| 0 <= i < self.docs@.len() implies (#[trigger] self.docs@[i]).counts_of(
                self.tokens@[i],
            ) by {
                if i < docs0.len() {
                    assert(self.docs@[i] == docs0[i]);
                }
            }
        }
        n
    }

    /// Adds the tokens of a text as a document.
    pub fn add_text(&mut self, text: &str) -> (r: usize)
        requires
            old(self).wf(),
        ensures
            final(self).wf(),
            r == old(self).docs().len(),
            final(self).docs() == old(self).docs().push(tokens_of(text@)),
            final(self).params() == old(self).params(),
    {
        let tokens = tokenize(text);
        self.add_document(&tokens)
    }

    /// How many documents there are.
    pub fn len(&self) -> (r: usize)
        requires
            self.wf(),
        ensures
            r == self.docs().len(),
    {
        self.docs.len()
    }

    pub fn is_empty(&self) -> (r: bool)
        requires
            self.wf(),
        ensures
            r == (self.docs().len() == 0),
    {
        self.docs.len() == 0
    }

    /// How many tokens a document has.
    pub fn doc_len(&self, doc: usize) -> (r: usize)
        requires
            self.wf(),
            doc < self.docs().len(),
        ensures
            r == self.docs()[doc as int].len(),
    {
        proof {
            assert(self.docs@[doc as int].counts_of(self.tokens@[doc as int]));
        }
        self.docs[doc].len
    }

    /// How often a term stands in a document.
    pub fn term_freq(&self, doc: usize, term: &str) -> (r: usize)
        requires
            self.wf(),
            doc < self.docs().len(),
        ensures
            r == occurrences(self.docs()[doc as int], term@),
    {
        let d = &self.docs[doc];
        proof {
            assert(d.counts_of(self.tokens@[doc as int]));
            assert(occurrences(self.tokens@[doc as int], term@) == match place(
                d.index.keys(),
                term@,
            ) {
                Some(i) => d.counts@[i] as nat,
                None => 0,
            });
        }
        match d.index.get(term) {
            Some(i) => d.counts[i],
            None => 0,
        }
    }

    /// In how many documents a term stands.
    pub fn doc_freq(&self, term: &str) -> (r: usize)
        requires
            self.wf(),
        ensures
            r == documents_with(self.docs(), term@),
    {
        let ghost all = self.docs();
        let mut n: usize = 0;
        let mut i: usize = 0;
        proof {
            assert(all.take(0) =~= Seq::<Seq<Seq<char>>>::empty());
        }
        while i < self.docs.len()
            invariant
                self.wf(),
                all == self.docs(),
                i <= self.docs@.len(),
                self.docs@.len() == all.len(),
                n <= i,
                n == documents_with(all.take(i as int), term@),
            decreases self.docs@.len() - i,
        {
            proof {
                assert(all.take(i as int + 1).drop_last() =~= all.take(i as int));
                assert(all.take(i as int + 1).last() == all[i as int]);
            }
            if self.term_freq(i, term) > 0 {
                n = n + 1;
            }
            i = i + 1;
        }
        proof {
            assert(all.take(i as int) =~= all);
        }
        n
    }

    /// The terms of a query that count for a document: those that stand in it. For
    /// a document that is not there, none does.
    pub fn query_hits(&self, doc: usize, query_terms: &[String]) -> (r: Vec<(usize, usize)>)
        requires
            self.wf(),
        ensures
            r@ == hits_in(self.docs(), doc as int, text_views(query_terms@)),
    {
        let ghost all = text_views(query_terms@);
        let ghost docs = self.docs();
        let mut out: Vec<(usize, usize)> = Vec::new();
        if doc >= self.docs.len() {
            return out;
        }
        let mut i: usize = 0;
        proof {
            assert(all.take(0) =~= Seq::<Seq<char>>::empty());
        }
        while i < query_terms.len()
            invariant
                self.wf(),
                docs == self.docs(),
                doc < docs.len(),
                i <= query_terms@.len(),
                all == text_views(query_terms@),
                out@ == hits_in(docs, doc as int, all.take(i as int)),
            decreases query_terms@.len() - i,
        {
            proof {
                assert(all.take(i as int + 1).drop_last() =~= all.take(i as int));
                assert(all.take(i as int + 1).last() == query_terms@[i as int]@);
            }
            let tf = self.term_freq(doc, &query_terms[i]);
            if tf > 0 {
                let df = self.doc_freq(&query_terms[i]);
                out.push((df, tf));
            }
            i = i + 1;
        }
        proof {
            assert(all.take(i as int) =~= all);
        }
        out
    }
}

} // verus!
