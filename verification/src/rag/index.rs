//! The word index over chunks.
//!
//! The index counts; the weighing of the counts (Okapi BM25) is left to the caller, who
//! hands the scores back as integers in their order.
use crate::metrics::sort_by_count;
use crate::table::Table;
use crate::text::{chars_of, index_char, len_bytes, split, str_eq, string_of};
use vstd::prelude::*;

verus! {

use crate::metrics::count_ge;
use crate::seqs::{
    keep,
    law_sorted_is_ordered_permutation,
    lemma_keep_members,
    lemma_keep_step,
    sorted,
};
use crate::table::{
    as_map,
    distinct_keys,
    lemma_drop_last,
    lemma_entry,
    lemma_has_key,
    lemma_key_count,
};
use crate::text::{ascii_lower, byte_len, index_of, split_on, texts};

// ── Words ────────────────────────────────────────────────────────────────────

/// The canonical composition of a text (Unicode normalization form C).
pub uninterp spec fn nfc_text(s: Seq<char>) -> Seq<char>;

/// `unicode_normalization::UnicodeNormalization::nfc`, collected: the text in normalization
/// form C.
#[verifier::external_body]
fn nfc(s: &str) -> (r: String)
    ensures
        r@ == nfc_text(s@),
{
    unicode_normalization::UnicodeNormalization::nfc(s).collect::<String>()
}

/// Whether a character is a letter or a number of any script.
pub uninterp spec fn alphanumeric(c: char) -> bool;

/// `char::is_alphanumeric`: among the ASCII characters these are the letters and digits.
#[verifier::external_body]
fn is_alphanumeric(c: char) -> (r: bool)
    ensures
        r == alphanumeric(c),
        (c as u32) < 128 ==> r == (48 <= c as u32 <= 57 || 65 <= c as u32 <= 90 || 97 <= c as u32
            <= 122),
{
    c.is_alphanumeric()
}

/// The lowercase form of a character.
pub uninterp spec fn lower_form(c: char) -> Seq<char>;

/// `char::to_lowercase`: the lowercase form, for ASCII one character.
#[verifier::external_body]
fn to_lower(c: char) -> (r: Vec<char>)
    ensures
        r@ == lower_form(c),
        (c as u32) < 128 ==> r@ == seq![ascii_lower(c)],
{
    c.to_lowercase().collect()
}

/// The first character of a character's lowercase form.
pub open spec fn lower_first(c: char) -> char {
    if lower_form(c).len() > 0 {
        lower_form(c)[0]
    } else {
        c
    }
}

fn to_lower_first(c: char) -> (r: char)
    ensures
        r == lower_first(c),
{
    let form = to_lower(c);
    if form.len() > 0 {
        form[0]
    } else {
        c
    }
}

/// Whether a character belongs to words: letters, numbers and the underscore.
pub open spec fn is_word_char(c: char) -> bool {
    alphanumeric(c) || c == '_'
}

/// Being long enough for a term: words of a single byte do not count.
pub open spec fn is_long() -> spec_fn(Seq<char>) -> bool {
    |w: Seq<char>| byte_len(w) >= 2
}

/// The terms of a word: the word itself and, where underscores join it, its parts, so that
/// `handle_request` is found under its full name and under `request`.
pub open spec fn word_terms(word: Seq<char>) -> Seq<Seq<char>> {
    if byte_len(word) < 2 {
        Seq::empty()
    } else if index_of(word, '_', 0) < word.len() {
        seq![word] + keep(split_on(word, '_'), is_long())
    } else {
        seq![word]
    }
}

/// The terms of the words that end within the first `n` characters, and the word that is open
/// there.
pub open spec fn scanned(s: Seq<char>, n: int) -> (Seq<Seq<char>>, Seq<char>)
    decreases n,
{
    if n <= 0 {
        (Seq::empty(), Seq::empty())
    } else {
        let (terms, open) = scanned(s, n - 1);
        if is_word_char(s[n - 1]) {
            (terms, open.push(lower_first(s[n - 1])))
        } else {
            (terms + word_terms(open), Seq::empty())
        }
    }
}

/// The terms of the lowercase words of a text.
pub open spec fn words_of(s: Seq<char>) -> Seq<Seq<char>> {
    let (terms, open) = scanned(s, s.len() as int);
    terms + word_terms(open)
}

/// The terms of a text: those of the words of its normal form.
pub open spec fn terms_of(text: Seq<char>) -> Seq<Seq<char>> {
    words_of(nfc_text(text))
}

fn push_word(terms: &mut Vec<String>, open: &Vec<char>)
    ensures
        texts(final(terms)@) == texts(old(terms)@) + word_terms(open@),
{
    let word = string_of(open);
    if len_bytes(word.as_str()) < 2 {
        assert(texts(terms@) =~= texts(old(terms)@) + word_terms(open@));
        return;
    }
    let ghost before = texts(terms@);
    let parts = if index_char(open, '_', 0) < open.len() {
        split(word.as_str(), '_')
    } else {
        Vec::new()
    };
    terms.push(word);
    let ghost all = texts(parts@);
    let mut i: usize = 0;
    assert(all.subrange(0, 0) =~= Seq::<Seq<char>>::empty());
    assert(texts(terms@) =~= before + seq![open@] + keep(all.subrange(0, 0), is_long()));
    while i < parts.len()
        invariant
            i <= parts@.len(),
            all == texts(parts@),
            texts(terms@) == before + seq![open@] + keep(all.subrange(0, i as int), is_long()),
        decreases parts@.len() - i,
    {
        proof {
            assert(all[i as int] == parts@[i as int]@);
            lemma_keep_step(all, is_long(), i as int);
        }
        let ghost kept = keep(all.subrange(0, i as int), is_long());
        if len_bytes(parts[i].as_str()) >= 2 {
            let ghost so_far = texts(terms@);
            terms.push(parts[i].clone());
            assert(texts(terms@) =~= so_far.push(all[i as int]));
            assert(texts(terms@) =~= before + seq![open@] + kept.push(all[i as int]));
        }
        i = i + 1;
    }
    proof {
        assert(all.subrange(0, all.len() as int) =~= all);
        assert(before + seq![open@] + keep(all, is_long()) =~= before + (seq![open@] + keep(
            all,
            is_long(),
        )));
        if index_of(open@, '_', 0) >= open@.len() {
            assert(all =~= Seq::<Seq<char>>::empty());
            assert(seq![open@] + keep(all, is_long()) =~= seq![open@]);
        }
    }
}

/// The terms of the lowercase words of a text.
pub fn words(text: &str) -> (r: Vec<String>)
    ensures
        texts(r@) == words_of(text@),
{
    let s = chars_of(text);
    let mut r: Vec<String> = Vec::new();
    let mut open: Vec<char> = Vec::new();
    let mut i: usize = 0;
    assert(texts(r@) =~= Seq::<Seq<char>>::empty());
    while i < s.len()
        invariant
            i <= s@.len(),
            texts(r@) == scanned(s@, i as int).0,
            open@ == scanned(s@, i as int).1,
        decreases s@.len() - i,
    {
        let c: char = s[i];
        if is_alphanumeric(c) || c == '_' {
            open.push(to_lower_first(c));
        } else {
            push_word(&mut r, &open);
            open = Vec::new();
        }
        i = i + 1;
    }
    push_word(&mut r, &open);
    r
}

/// Tokenizes text into normalized lowercase terms. Splits at white space and punctuation; a
/// name with underscores is a term too. Leaves out single-byte tokens.
pub fn tokenize(text: &str) -> (r: Vec<String>)
    ensures
        texts(r@) == terms_of(text@),
{
    let normal = nfc(text);
    words(normal.as_str())
}

// ── The index ────────────────────────────────────────────────────────────────

/// The terms of one document.
#[derive(Debug)]
pub struct DocTerms {
    /// How often each term occurs.
    pub freq: Table<usize>,
    /// Number of terms.
    pub length: usize,
}

/// The index: documents by id, and for each term the documents that hold it.
#[derive(Debug)]
pub struct BM25Index {
    pub docs: Table<DocTerms>,
    pub inverted: Table<Vec<String>>,
}

/// How often a term occurs among others.
pub open spec fn occurrences(terms: Seq<Seq<char>>, term: Seq<char>) -> nat {
    keep(terms, is_term(term)).len()
}

/// Being this term.
pub open spec fn is_term(term: Seq<char>) -> spec_fn(Seq<char>) -> bool {
    |t: Seq<char>| t == term
}

/// Whether a document holds exactly these terms.
pub open spec fn holds_terms(d: DocTerms, terms: Seq<Seq<char>>) -> bool {
    &&& d.length == terms.len()
    &&& d.freq.wf()
    &&& forall|t: Seq<char>| #[trigger]
        d.freq@.dom().contains(t) == (occurrences(terms, t) > 0)
    &&& forall|t: Seq<char>|
        d.freq@.dom().contains(t) ==> #[trigger] d.freq@[t] == occurrences(terms, t)
}

/// Whether a document holds a term.
pub open spec fn has_term(
    docs: Map<Seq<char>, DocTerms>,
    doc: Seq<char>,
    term: Seq<char>,
) -> bool {
    docs.dom().contains(doc) && docs[doc].freq@.dom().contains(term)
}

/// Whether the list of a term names a document.
pub open spec fn listed(
    inverted: Map<Seq<char>, Vec<String>>,
    term: Seq<char>,
    doc: Seq<char>,
) -> bool {
    inverted.dom().contains(term) && texts(inverted[term]@).contains(doc)
}

impl BM25Index {
    /// The documents by id.
    pub open spec fn view(&self) -> Map<Seq<char>, DocTerms> {
        self.docs@
    }

    /// The lists name, once each, exactly the documents that hold their terms.
    pub open spec fn wf(self) -> bool {
        &&& self.docs.wf()
        &&& self.inverted.wf()
        &&& forall|doc: Seq<char>|
            self.docs@.dom().contains(doc) ==> (#[trigger] self.docs@[doc]).freq.wf()
        &&& forall|term: Seq<char>, doc: Seq<char>| #[trigger]
            listed(self.inverted@, term, doc) == has_term(self.docs@, doc, term)
        &&& forall|term: Seq<char>|
            self.inverted@.dom().contains(term) ==> texts(
                (#[trigger] self.inverted@[term])@,
            ).no_duplicates()
    }
}

/// The length of all these documents together.
pub open spec fn total_of(docs: Map<Seq<char>, DocTerms>) -> nat
    decreases docs.dom().len(),
    when docs.dom().finite()
{
    if docs.dom().len() == 0 {
        0
    } else {
        let doc = docs.dom().choose();
        docs[doc].length as nat + total_of(docs.remove(doc))
    }
}

/// A document adds its own length to the total.
pub proof fn lemma_total_without(docs: Map<Seq<char>, DocTerms>, doc: Seq<char>)
    requires
        docs.dom().finite(),
        docs.dom().contains(doc),
    ensures
        total_of(docs) == docs[doc].length as nat + total_of(docs.remove(doc)),
    decreases docs.dom().len(),
{
    let first = docs.dom().choose();
    assert(docs.dom().contains(first));
    if first != doc {
        lemma_total_without(docs.remove(first), doc);
        lemma_total_without(docs.remove(doc), first);
        assert(docs.remove(first).remove(doc) =~= docs.remove(doc).remove(first));
    }
}

/// A document that holds a term of a query: how often, and how long the document is.
#[derive(Debug)]
pub struct DocHit {
    pub doc_id: String,
    pub tf: usize,
    pub length: usize,
}

/// The ids of hits.
pub open spec fn hit_ids(hits: Seq<DocHit>) -> Seq<Seq<char>> {
    hits.map_values(|h: DocHit| h.doc_id@)
}

/// Whether these are the documents that hold a term, each once, with their counts.
pub open spec fn are_hits(
    hits: Seq<DocHit>,
    docs: Map<Seq<char>, DocTerms>,
    term: Seq<char>,
) -> bool {
    &&& hit_ids(hits).no_duplicates()
    &&& forall|doc: Seq<char>| #[trigger]
        hit_ids(hits).contains(doc) == has_term(docs, doc, term)
    &&& forall|i: int|
        0 <= i < hits.len() ==> {
            let h = #[trigger] hits[i];
            h.tf == docs[h.doc_id@].freq@[term] && h.length == docs[h.doc_id@].length
        }
}

fn count_terms(terms: &Vec<String>) -> (freq: Table<usize>)
    ensures
        freq.wf(),
        forall|t: Seq<char>| #[trigger]
            freq@.dom().contains(t) == (occurrences(texts(terms@), t) > 0),
        forall|t: Seq<char>|
            freq@.dom().contains(t) ==> #[trigger] freq@[t] == occurrences(texts(terms@), t),
{
    let ghost all = texts(terms@);
    let mut freq: Table<usize> = Table::new();
    let mut i: usize = 0;
    while i < terms.len()
        invariant
            i <= terms@.len(),
            all == texts(terms@),
            freq.wf(),
            forall|t: Seq<char>| #[trigger]
                freq@.dom().contains(t) == (occurrences(all.subrange(0, i as int), t) > 0),
            forall|t: Seq<char>|
                freq@.dom().contains(t) ==> #[trigger] freq@[t] == occurrences(
                    all.subrange(0, i as int),
                    t,
                ),
            forall|t: Seq<char>| #[trigger] occurrences(all.subrange(0, i as int), t) <= i,
        decreases terms@.len() - i,
    {
        let ghost before = freq@;
        let ghost term = terms@[i as int]@;
        let n: usize = match freq.get(terms[i].as_str()) {
            Some(n) => *n,
            None => 0,
        };
        assert(n == occurrences(all.subrange(0, i as int), term));
        freq.insert(terms[i].clone(), n + 1);
        proof {
            assert(all[i as int] == term);
            assert forall|t: Seq<char>| #[trigger]
                occurrences(all.subrange(0, i + 1), t) == occurrences(all.subrange(0, i as int), t)
                    + if t == term {
                    1nat
                } else {
                    0
                } by {
                lemma_keep_step(all, is_term(t), i as int);
            }
            assert forall|t: Seq<char>| #[trigger]
                freq@.dom().contains(t) == (occurrences(all.subrange(0, i + 1), t) > 0) by {
                assert(before.dom().contains(t) == (occurrences(all.subrange(0, i as int), t)
                    > 0));
            }
            assert forall|t: Seq<char>| freq@.dom().contains(t) implies #[trigger] freq@[t]
                == occurrences(all.subrange(0, i + 1), t) by {
                if t != term {
                    assert(before.dom().contains(t));
                    assert(before[t] == freq@[t]);
                }
            }
        }
        i = i + 1;
    }
    assert(all.subrange(0, all.len() as int) =~= all);
    freq
}

fn remove_id(list: &mut Vec<String>, doc_id: &str)
    ensures
        forall|d: Seq<char>| #[trigger]
            texts(final(list)@).contains(d) == (texts(old(list)@).contains(d) && d != doc_id@),
        texts(old(list)@).no_duplicates() ==> texts(final(list)@).no_duplicates(),
{
    let ghost pre = list@;
    let mut kept: Vec<String> = Vec::new();
    let ghost mut from: Seq<int> = Seq::empty();
    let mut i: usize = 0;
    while i < list.len()
        invariant
            i <= list@.len(),
            list@ == pre,
            from.len() == kept@.len(),
            forall|k: int| 0 <= k < from.len() ==> 0 <= #[trigger] from[k] < i,
            forall|k: int, l: int|
                0 <= k < l < from.len() ==> #[trigger] from[k] < #[trigger] from[l],
            forall|k: int|
                0 <= k < kept@.len() ==> (#[trigger] kept@[k]) == pre[from[k]] && kept@[k]@
                    != doc_id@,
            forall|j: int|
                0 <= j < i && (#[trigger] pre[j])@ != doc_id@ ==> texts(kept@).contains(pre[j]@),
        decreases list@.len() - i,
    {
        if !str_eq(list[i].as_str(), doc_id) {
            let ghost before = kept@;
            kept.push(list[i].clone());
            proof {
                from = from.push(i as int);
                assert(texts(kept@) =~= texts(before).push(pre[i as int]@));
                assert forall|j: int|
                    0 <= j <= i && (#[trigger] pre[j])@ != doc_id@ implies texts(
                    kept@,
                ).contains(pre[j]@) by {
                    if j < i {
                        let k = choose|k: int|
                            0 <= k < texts(before).len() && texts(before)[k] == pre[j]@;
                        assert(texts(kept@)[k] == pre[j]@);
                    } else {
                        assert(texts(kept@)[before.len() as int] == pre[j]@);
                    }
                }
            }
        }
        i = i + 1;
    }
    proof {
        assert forall|d: Seq<char>| #[trigger]
            texts(kept@).contains(d) == (texts(pre).contains(d) && d != doc_id@) by {
            if texts(kept@).contains(d) {
                let k = choose|k: int| 0 <= k < texts(kept@).len() && texts(kept@)[k] == d;
                assert(kept@[k]@ == d);
                assert(texts(pre)[from[k]] == d);
            }
            if texts(pre).contains(d) && d != doc_id@ {
                let j = choose|j: int| 0 <= j < texts(pre).len() && texts(pre)[j] == d;
                assert(pre[j]@ == d);
            }
        }
        if texts(pre).no_duplicates() {
            assert forall|k: int, l: int| 0 <= k < l < texts(kept@).len() implies texts(kept@)[k]
                != texts(kept@)[l] by {
                assert(from[k] < from[l]);
                assert(texts(pre)[from[k]] != texts(pre)[from[l]]);
                assert(kept@[k] == pre[from[k]] && kept@[l] == pre[from[l]]);
            }
        }
    }
    *list = kept;
}

impl BM25Index {
    pub fn new() -> (r: Self)
        ensures
            r.wf(),
            r@ == Map::<Seq<char>, DocTerms>::empty(),
            r.docs.entries@.len() == 0,
    {
        BM25Index { docs: Table::new(), inverted: Table::new() }
    }

    /// Number of documents.
    pub fn doc_count(&self) -> (n: usize)
        requires
            self.wf(),
        ensures
            self@.dom().finite(),
            n == self@.dom().len(),
    {
        proof {
            lemma_key_count(self.docs.entries@);
        }
        self.docs.len()
    }

    /// Removes a document; one that is not there is no matter.
    pub fn remove_document(&mut self, doc_id: &str)
        requires
            old(self).wf(),
        ensures
            final(self).wf(),
            final(self)@ == old(self)@.remove(doc_id@),
    {
        let ghost docs = self.docs@;
        let ghost pre = self.inverted@;
        if let Some(d) = self.docs.remove(doc_id) {
            let mut i: usize = 0;
            while i < d.freq.entries.len()
                invariant
                    i <= d.freq.entries@.len(),
                    docs.dom().contains(doc_id@),
                    d == docs[doc_id@],
                    d.freq.wf(),
                    self.docs.wf(),
                    self.docs@ == docs.remove(doc_id@),
                    self.inverted.wf(),
                    forall|term: Seq<char>, doc: Seq<char>| #[trigger]
                        listed(self.inverted@, term, doc) == (has_term(docs, doc, term) && (doc
                            != doc_id@ || !exists|j: int|
                            0 <= j < i && (#[trigger] d.freq.entries@[j]).0@ == term)),
                    forall|term: Seq<char>|
                        self.inverted@.dom().contains(term) ==> texts(
                            (#[trigger] self.inverted@[term])@,
                        ).no_duplicates(),
                decreases d.freq.entries@.len() - i,
            {
                let ghost inv = self.inverted@;
                let ghost here = d.freq.entries@[i as int].0@;
                proof {
                    lemma_entry(d.freq.entries@, i as int);
                }
                let term = d.freq.entries[i].0.as_str();
                match self.inverted.get_mut(term) {
                    Some(list) => {
                        remove_id(list, doc_id);
                    },
                    None => {},
                }
                proof {
                    assert forall|term: Seq<char>, doc: Seq<char>| #[trigger]
                        listed(self.inverted@, term, doc) == (has_term(docs, doc, term) && (doc
                            != doc_id@ || !exists|j: int|
                            0 <= j < i + 1 && (#[trigger] d.freq.entries@[j]).0@ == term)) by {
                        assert(listed(inv, term, doc) == (has_term(docs, doc, term) && (doc
                            != doc_id@ || !exists|j: int|
                            0 <= j < i && (#[trigger] d.freq.entries@[j]).0@ == term)));
                        if term == here {
                            assert(d.freq.entries@[i as int].0@ == term);
                        }
                    }
                }
                i = i + 1;
            }
            proof {
                assert forall|term: Seq<char>, doc: Seq<char>| #[trigger]
                    listed(self.inverted@, term, doc) == has_term(self.docs@, doc, term) by {
                    if doc == doc_id@ && has_term(docs, doc, term) {
                        lemma_has_key(d.freq.entries@, term);
                        let j = choose|j: int|
                            0 <= j < d.freq.entries@.len() && (#[trigger] d.freq.entries@[j]).0@
                                == term;
                        assert(d.freq.entries@[j].0@ == term);
                    }
                }
            }
        } else {
            assert(docs.remove(doc_id@) =~= docs);
        }
    }

    /// Adds a document, in place of one with the same id.
    pub fn add_document(&mut self, doc_id: &str, text: &str)
        requires
            old(self).wf(),
        ensures
            final(self).wf(),
            is_added(old(self)@, doc_id@, terms_of(text@), final(self)@),
    {
        let terms = tokenize(text);
        self.add_terms(doc_id, &terms);
    }

    /// Adds a document with these terms, in place of one with the same id.
    pub fn add_terms(&mut self, doc_id: &str, terms: &Vec<String>)
        requires
            old(self).wf(),
        ensures
            final(self).wf(),
            is_added(old(self)@, doc_id@, texts(terms@), final(self)@),
    {
        self.remove_document(doc_id);
        let freq = count_terms(terms);
        let ghost docs = self.docs@;
        assert(!docs.dom().contains(doc_id@));
        let mut i: usize = 0;
        while i < freq.entries.len()
            invariant
                i <= freq.entries@.len(),
                freq.wf(),
                !docs.dom().contains(doc_id@),
                self.docs.wf(),
                self.docs@ == docs,
                forall|doc: Seq<char>|
                    docs.dom().contains(doc) ==> (#[trigger] docs[doc]).freq.wf(),
                self.inverted.wf(),
                forall|term: Seq<char>, doc: Seq<char>| #[trigger]
                    listed(self.inverted@, term, doc) == (has_term(docs, doc, term) || (doc
                        == doc_id@ && exists|j: int|
                        0 <= j < i && (#[trigger] freq.entries@[j]).0@ == term)),
                forall|term: Seq<char>|
                    self.inverted@.dom().contains(term) ==> texts(
                        (#[trigger] self.inverted@[term])@,
                    ).no_duplicates(),
            decreases freq.entries@.len() - i,
        {
            let ghost inv = self.inverted@;
            let ghost here = freq.entries@[i as int].0@;
            proof {
                assert(!listed(inv, here, doc_id@)) by {
                    assert forall|j: int| 0 <= j < i implies (#[trigger] freq.entries@[j]).0@
                        != here by {}
                }
            }
            let term = freq.entries[i].0.as_str();
            let known = self.inverted.contains(term);
            if known {
                if let Some(list) = self.inverted.get_mut(term) {
                    let ghost before = list@;
                    list.push(doc_id.to_owned());
                    proof {
                        assert(texts(list@) =~= texts(before).push(doc_id@));
                        lemma_pushed(texts(before), doc_id@);
                    }
                }
            } else {
                let list = vec![doc_id.to_owned()];
                proof {
                    assert(texts(list@) =~= Seq::<Seq<char>>::empty().push(doc_id@));
                    lemma_pushed(Seq::<Seq<char>>::empty(), doc_id@);
                }
                self.inverted.insert(freq.entries[i].0.clone(), list);
            }
            proof {
                assert forall|term: Seq<char>, doc: Seq<char>| #[trigger]
                    listed(self.inverted@, term, doc) == (has_term(docs, doc, term) || (doc
                        == doc_id@ && exists|j: int|
                        0 <= j < i + 1 && (#[trigger] freq.entries@[j]).0@ == term)) by {
                    assert(listed(inv, term, doc) == (has_term(docs, doc, term) || (doc == doc_id@
                        && exists|j: int|
                        0 <= j < i && (#[trigger] freq.entries@[j]).0@ == term)));
                    if term == here {
                        assert(freq.entries@[i as int].0@ == term);
                    }
                }
            }
            i = i + 1;
        }
        let ghost counted = freq;
        self.docs.insert(doc_id.to_owned(), DocTerms { freq, length: terms.len() });
        proof {
            assert(self@.dom() =~= old(self)@.dom().insert(doc_id@));
            assert forall|term: Seq<char>, doc: Seq<char>| #[trigger]
                listed(self.inverted@, term, doc) == has_term(self.docs@, doc, term) by {
                lemma_has_key(counted.entries@, term);
                if doc == doc_id@ && counted@.dom().contains(term) {
                    let j = choose|j: int|
                        0 <= j < counted.entries@.len() && (#[trigger] counted.entries@[j]).0@
                            == term;
                    assert(counted.entries@[j].0@ == term);
                }
            }
        }
    }

    /// The documents that hold the term.
    fn hits(&self, term: &str) -> (r: Vec<DocHit>)
        requires
            self.wf(),
        ensures
            are_hits(r@, self@, term@),
    {
        let mut r: Vec<DocHit> = Vec::new();
        match self.inverted.get(term) {
            None => {
                proof {
                    assert forall|doc: Seq<char>| #[trigger]
                        hit_ids(r@).contains(doc) == has_term(self@, doc, term@) by {
                        assert(!listed(self.inverted@, term@, doc));
                    }
                }
                r
            },
            Some(list) => {
                let ghost ids = texts(list@);
                let mut i: usize = 0;
                assert(hit_ids(r@) =~= ids.subrange(0, 0));
                while i < list.len()
                    invariant
                        i <= list@.len(),
                        self.wf(),
                        ids == texts(list@),
                        self.inverted@.dom().contains(term@),
                        *list == self.inverted@[term@],
                        hit_ids(r@) == ids.subrange(0, i as int),
                        forall|k: int|
                            0 <= k < r@.len() ==> {
                                let h = #[trigger] r@[k];
                                h.tf == self.docs@[h.doc_id@].freq@[term@] && h.length
                                    == self.docs@[h.doc_id@].length
                            },
                    decreases list@.len() - i,
                {
                    let ghost before = r@;
                    assert(ids[i as int] == list@[i as int]@);
                    assert(listed(self.inverted@, term@, list@[i as int]@));
                    if let Some(d) = self.docs.get(list[i].as_str()) {
                        if let Some(n) = d.freq.get(term) {
                            r.push(DocHit { doc_id: list[i].clone(), tf: *n, length: d.length });
                        }
                    }
                    i = i + 1;
                    assert(hit_ids(r@) =~= hit_ids(before).push(ids[i - 1]));
                    assert(ids.subrange(0, i as int) =~= ids.subrange(0, i - 1).push(ids[i - 1]));
                }
                proof {
                    assert(ids.subrange(0, ids.len() as int) =~= ids);
                    assert forall|doc: Seq<char>| #[trigger]
                        hit_ids(r@).contains(doc) == has_term(self@, doc, term@) by {
                        assert(listed(self.inverted@, term@, doc) == ids.contains(doc));
                    }
                }
                r
            },
        }
    }

    /// For each of these terms the documents that hold it.
    pub fn search_terms(&self, terms: &Vec<String>) -> (r: Vec<Vec<DocHit>>)
        requires
            self.wf(),
        ensures
            r@.len() == terms@.len(),
            forall|i: int|
                0 <= i < r@.len() ==> are_hits((#[trigger] r@[i])@, self@, terms@[i]@),
    {
        let mut r: Vec<Vec<DocHit>> = Vec::new();
        let mut i: usize = 0;
        while i < terms.len()
            invariant
                i <= terms@.len(),
                self.wf(),
                r@.len() == i,
                forall|k: int| 0 <= k < i ==> are_hits((#[trigger] r@[k])@, self@, terms@[k]@),
            decreases terms@.len() - i,
        {
            r.push(self.hits(terms[i].as_str()));
            i = i + 1;
        }
        r
    }

    /// For each term of a query the documents that hold it. The number of hits of a term is
    /// its document frequency.
    pub fn search(&self, query: &str) -> (r: Vec<Vec<DocHit>>)
        requires
            self.wf(),
        ensures
            r@.len() == terms_of(query@).len(),
            forall|i: int|
                0 <= i < r@.len() ==> are_hits((#[trigger] r@[i])@, self@, terms_of(query@)[i]),
    {
        let terms = tokenize(query);
        let r = self.search_terms(&terms);
        assert forall|i: int| 0 <= i < r@.len() implies are_hits(
            (#[trigger] r@[i])@,
            self@,
            terms_of(query@)[i],
        ) by {
            assert(texts(terms@)[i] == terms@[i]@);
        }
        r
    }

    /// The length of all documents together, by which their average length is found.
    pub fn total_length(&self) -> (n: u128)
        requires
            self.wf(),
        ensures
            n == total_of(self@),
    {
        let ghost all = self.docs.entries@;
        let mut n: u128 = 0;
        let mut i: usize = 0;
        proof {
            lemma_key_count(all.subrange(0, 0));
        }
        while i < self.docs.entries.len()
            invariant
                i <= self.docs.entries@.len(),
                all == self.docs.entries@,
                distinct_keys(all),
                n == total_of(as_map(all.subrange(0, i as int))),
                n <= i * usize::MAX,
            decreases self.docs.entries@.len() - i,
        {
            proof {
                let next = all.subrange(0, i + 1);
                assert(next.drop_last() =~= all.subrange(0, i as int));
                lemma_drop_last(next);
                lemma_key_count(next);
                lemma_total_without(as_map(next), next.last().0@);
                assert(i * usize::MAX + usize::MAX == (i + 1) * usize::MAX) by (nonlinear_arith);
                assert((i + 1) * usize::MAX <= 0xffff_ffff_ffff_ffff * 0xffff_ffff_ffff_ffff)
                    by (nonlinear_arith)
                    requires
                        i + 1 <= 0xffff_ffff_ffff_ffff,
                        usize::MAX <= 0xffff_ffff_ffff_ffff,
                ;
            }
            n = n + self.docs.entries[i].1.length as u128;
            i = i + 1;
        }
        assert(all.subrange(0, all.len() as int) =~= all);
        n
    }
}

proof fn lemma_pushed(s: Seq<Seq<char>>, x: Seq<char>)
    ensures
        forall|d: Seq<char>| #[trigger] s.push(x).contains(d) == (s.contains(d) || d == x),
        s.no_duplicates() && !s.contains(x) ==> s.push(x).no_duplicates(),
{
    assert forall|d: Seq<char>| #[trigger] s.push(x).contains(d) == (s.contains(d) || d == x) by {
        if s.contains(d) {
            let k = choose|k: int| 0 <= k < s.len() && s[k] == d;
            assert(s.push(x)[k] == d);
        }
        if d == x {
            assert(s.push(x)[s.len() as int] == d);
        }
    }
}

/// The best of scored documents: by descending score, `top_k` at most.
pub open spec fn best(scored: Seq<(String, usize)>, top_k: int) -> Seq<(String, usize)> {
    let all = sorted(scored, count_ge());
    if all.len() <= top_k {
        all
    } else {
        all.subrange(0, top_k)
    }
}

/// The documents by descending score, `top_k` at most. Equal scores keep their order.
pub fn rank(scored: Vec<(String, usize)>, top_k: usize) -> (r: Vec<(String, usize)>)
    ensures
        r@ == best(scored@, top_k as int),
{
    let mut r = sort_by_count(scored);
    if r.len() > top_k {
        r.truncate(top_k);
    }
    r
}

/// What is ranked best scored at least as high as everything that is left out.
pub proof fn law_best_scores_win(scored: Seq<(String, usize)>, top_k: int, i: int, j: int)
    requires
        0 <= top_k,
        0 <= i < best(scored, top_k).len(),
        i <= j < scored.len(),
    ensures
        best(scored, top_k)[i].1 >= sorted(scored, count_ge())[j].1,
        sorted(scored, count_ge()).to_multiset() == scored.to_multiset(),
{
    law_sorted_is_ordered_permutation(scored, count_ge());
    assert(best(scored, top_k)[i] == sorted(scored, count_ge())[i]);
    assert(count_ge()(sorted(scored, count_ge())[i], sorted(scored, count_ge())[j]));
}

/// A document that was added is found under each of its terms, and under no other.
pub proof fn law_added_document_is_found(
    docs: Map<Seq<char>, DocTerms>,
    doc: Seq<char>,
    terms: Seq<Seq<char>>,
    hits: Seq<DocHit>,
    term: Seq<char>,
)
    requires
        docs.dom().contains(doc),
        holds_terms(docs[doc], terms),
        are_hits(hits, docs, term),
    ensures
        hit_ids(hits).contains(doc) == terms.contains(term),
{
    let p = is_term(term);
    lemma_keep_members(terms, p);
    assert(hit_ids(hits).contains(doc) == (occurrences(terms, term) > 0));
    if terms.contains(term) {
        let m = choose|m: int| 0 <= m < terms.len() && terms[m] == term;
        assert(p(terms[m]));
        assert(keep(terms, p).contains(terms[m]));
    }
    if occurrences(terms, term) > 0 {
        assert(p(keep(terms, p)[0]));
        assert(terms.contains(keep(terms, p)[0]));
    }
}

/// A document that was removed is not found any more, and the others are found as before.
pub proof fn law_removed_document_is_not_found(
    docs: Map<Seq<char>, DocTerms>,
    doc: Seq<char>,
    before: Seq<DocHit>,
    after: Seq<DocHit>,
    term: Seq<char>,
)
    requires
        are_hits(before, docs, term),
        are_hits(after, docs.remove(doc), term),
    ensures
        !hit_ids(after).contains(doc),
        forall|other: Seq<char>|
            other != doc ==> #[trigger] hit_ids(after).contains(other) == hit_ids(before).contains(
                other,
            ),
{
    assert(!has_term(docs.remove(doc), doc, term));
    assert forall|other: Seq<char>| other != doc implies #[trigger] hit_ids(after).contains(other)
        == hit_ids(before).contains(other) by {
        assert(has_term(docs.remove(doc), other, term) == has_term(docs, other, term));
    }
}

/// Whether `post` is `pre` with a document of these terms, in place of one with the same id.
pub open spec fn is_added(
    pre: Map<Seq<char>, DocTerms>,
    doc: Seq<char>,
    terms: Seq<Seq<char>>,
    post: Map<Seq<char>, DocTerms>,
) -> bool {
    &&& post.dom() == pre.dom().insert(doc)
    &&& holds_terms(post[doc], terms)
    &&& forall|other: Seq<char>|
        other != doc && pre.dom().contains(other) ==> #[trigger] post[other] == pre[other]
}

/// Whether two searches for a term find the same: documents, counts and lengths.
pub open spec fn same_hits(a: Seq<DocHit>, b: Seq<DocHit>) -> bool {
    &&& a.len() == b.len()
    &&& forall|doc: Seq<char>| #[trigger] hit_ids(a).contains(doc) == hit_ids(b).contains(doc)
    &&& forall|i: int, j: int|
        0 <= i < a.len() && 0 <= j < b.len() && (#[trigger] a[i]).doc_id@ == (
        #[trigger] b[j]).doc_id@ ==> a[i].tf == b[j].tf && a[i].length == b[j].length
}

/// Whether documents are indexed alike.
pub open spec fn same_docs(a: Map<Seq<char>, DocTerms>, b: Map<Seq<char>, DocTerms>) -> bool {
    &&& a.dom() == b.dom()
    &&& forall|doc: Seq<char>|
        a.dom().contains(doc) ==> (#[trigger] a[doc]).length == b[doc].length && a[doc].freq@
            == b[doc].freq@
}

proof fn lemma_same_ids(a: Seq<Seq<char>>, b: Seq<Seq<char>>)
    requires
        a.no_duplicates(),
        b.no_duplicates(),
        forall|doc: Seq<char>| #[trigger] a.contains(doc) == b.contains(doc),
    ensures
        a.len() == b.len(),
{
    a.unique_seq_to_set();
    b.unique_seq_to_set();
    assert forall|doc: Seq<char>| #[trigger] a.to_set().contains(doc) == b.to_set().contains(
        doc,
    ) by {
        assert(a.contains(doc) == b.contains(doc));
    }
    assert(a.to_set() =~= b.to_set());
}

/// In documents that are indexed alike the same is found.
proof fn lemma_same_docs_same_hits(
    a: Map<Seq<char>, DocTerms>,
    b: Map<Seq<char>, DocTerms>,
    term: Seq<char>,
    in_a: Seq<DocHit>,
    in_b: Seq<DocHit>,
)
    requires
        same_docs(a, b),
        are_hits(in_a, a, term),
        are_hits(in_b, b, term),
    ensures
        same_hits(in_a, in_b),
{
    assert forall|doc: Seq<char>| #[trigger] hit_ids(in_a).contains(doc) == hit_ids(
        in_b,
    ).contains(doc) by {
        assert(has_term(a, doc, term) == has_term(b, doc, term));
    }
    lemma_same_ids(hit_ids(in_a), hit_ids(in_b));
    assert forall|i: int, j: int|
        0 <= i < in_a.len() && 0 <= j < in_b.len() && (#[trigger] in_a[i]).doc_id@ == (
        #[trigger] in_b[j]).doc_id@ implies in_a[i].tf == in_b[j].tf && in_a[i].length
        == in_b[j].length by {
        let doc = in_a[i].doc_id@;
        assert(hit_ids(in_a)[i] == doc);
        assert(hit_ids(in_a).contains(doc));
        assert(has_term(a, doc, term));
    }
}

proof fn lemma_same_docs_same_total(a: Map<Seq<char>, DocTerms>, b: Map<Seq<char>, DocTerms>)
    requires
        same_docs(a, b),
        a.dom().finite(),
    ensures
        total_of(a) == total_of(b),
    decreases a.dom().len(),
{
    if a.dom().len() > 0 {
        let doc = a.dom().choose();
        assert(a.dom().contains(doc));
        assert(a.remove(doc).dom() =~= b.remove(doc).dom());
        lemma_same_docs_same_total(a.remove(doc), b.remove(doc));
    }
}

/// A second text under an id replaces the first: the index is as if the second alone had been
/// added. The number of documents, their length and what is found are the same; and an id that
/// was not held adds one document.
pub proof fn law_second_text_replaces_the_first(
    pre: Map<Seq<char>, DocTerms>,
    doc: Seq<char>,
    first: Seq<Seq<char>>,
    second: Seq<Seq<char>>,
    between: Map<Seq<char>, DocTerms>,
    twice: Map<Seq<char>, DocTerms>,
    once: Map<Seq<char>, DocTerms>,
    term: Seq<char>,
    in_twice: Seq<DocHit>,
    in_once: Seq<DocHit>,
)
    requires
        pre.dom().finite(),
        is_added(pre, doc, first, between),
        is_added(between, doc, second, twice),
        is_added(pre, doc, second, once),
        are_hits(in_twice, twice, term),
        are_hits(in_once, once, term),
    ensures
        twice.dom().len() == once.dom().len(),
        total_of(twice) == total_of(once),
        same_hits(in_twice, in_once),
        !pre.dom().contains(doc) ==> once.dom().len() == pre.dom().len() + 1,
        pre.dom().contains(doc) ==> once.dom().len() == pre.dom().len(),
{
    assert(twice.dom() =~= once.dom());
    assert forall|d: Seq<char>| twice.dom().contains(d) implies (#[trigger] twice[d]).length
        == once[d].length && twice[d].freq@ == once[d].freq@ by {
        if d == doc {
            assert forall|t: Seq<char>| #[trigger] twice[d].freq@.dom().contains(t)
                == once[d].freq@.dom().contains(t) by {
                assert(twice[d].freq@.dom().contains(t) == (occurrences(second, t) > 0));
                assert(once[d].freq@.dom().contains(t) == (occurrences(second, t) > 0));
            }
            assert forall|t: Seq<char>| twice[d].freq@.dom().contains(t) implies (
            #[trigger] twice[d].freq@[t]) == once[d].freq@[t] by {
                assert(once[d].freq@.dom().contains(t));
                assert(once[d].freq@[t] == occurrences(second, t));
                assert(twice[d].freq@[t] == occurrences(second, t));
            }
            assert(twice[d].freq@ =~= once[d].freq@);
        } else {
            assert(pre.dom().contains(d) && between.dom().contains(d));
            assert(between[d] == pre[d] && once[d] == pre[d] && twice[d] == between[d]);
        }
    }
    lemma_same_docs_same_hits(twice, once, term, in_twice, in_once);
    lemma_same_docs_same_total(twice, once);
    if pre.dom().contains(doc) {
        assert(pre.dom().insert(doc) =~= pre.dom());
    }
}

/// Removing a document that was just added under a new id restores the index: the number of
/// documents, their length and what is found are as before. Removing an id that is not held
/// changes nothing.
pub proof fn law_remove_undoes_add(
    pre: Map<Seq<char>, DocTerms>,
    doc: Seq<char>,
    terms: Seq<Seq<char>>,
    added: Map<Seq<char>, DocTerms>,
    term: Seq<char>,
    before: Seq<DocHit>,
    after: Seq<DocHit>,
)
    requires
        pre.dom().finite(),
        !pre.dom().contains(doc),
        is_added(pre, doc, terms, added),
        are_hits(before, pre, term),
        are_hits(after, added.remove(doc), term),
    ensures
        added.remove(doc).dom().len() == pre.dom().len(),
        total_of(added.remove(doc)) == total_of(pre),
        same_hits(before, after),
        pre.remove(doc) == pre,
{
    let restored = added.remove(doc);
    assert forall|d: Seq<char>| pre.dom().contains(d) implies #[trigger] restored[d]
        == pre[d] by {
        assert(added[d] == pre[d]);
    }
    assert(restored.dom() =~= pre.dom());
    assert(restored =~= pre);
    assert(pre.remove(doc) =~= pre);
    lemma_same_docs_same_hits(pre, restored, term, before, after);
}

// ── Laws of words ────────────────────────────────────────────────────────────

proof fn lemma_scanned_same(a: Seq<char>, b: Seq<char>, n: int)
    requires
        0 <= n <= a.len(),
        n <= b.len(),
        forall|i: int| 0 <= i < n ==> a[i] == #[trigger] b[i],
    ensures
        scanned(a, n) == scanned(b, n),
    decreases n,
{
    if n > 0 {
        lemma_scanned_same(a, b, n - 1);
        assert(a[n - 1] == b[n - 1]);
    }
}

proof fn lemma_scanned_append(a: Seq<char>, c: char, b: Seq<char>, n: int)
    requires
        !is_word_char(c),
        0 <= n <= b.len(),
    ensures
        ({
            let s = a + seq![c] + b;
            let whole = scanned(s, a.len() + 1 + n);
            &&& whole.0 == words_of(a) + scanned(b, n).0
            &&& whole.1 == scanned(b, n).1
        }),
    decreases n,
{
    let s = a + seq![c] + b;
    let k = a.len() as int;
    if n == 0 {
        lemma_scanned_same(s, a, k);
        assert(s[k] == c);
        assert(scanned(s, k + 1).0 =~= words_of(a) + scanned(b, 0).0);
    } else {
        lemma_scanned_append(a, c, b, n - 1);
        assert(s[k + n] == b[n - 1]);
        let before = scanned(b, n - 1);
        assert(words_of(a) + before.0 + word_terms(before.1) =~= words_of(a) + (before.0
            + word_terms(before.1)));
    }
}

/// The terms of two texts with a character between them that belongs to no word are the terms of
/// the first and those of the second: every word counts, wherever it stands.
pub proof fn law_words_of_joined_texts(a: Seq<char>, c: char, b: Seq<char>)
    requires
        !is_word_char(c),
    ensures
        words_of(a + seq![c] + b) == words_of(a) + words_of(b),
{
    lemma_scanned_append(a, c, b, b.len() as int);
    let s = a + seq![c] + b;
    assert(s.len() == a.len() + 1 + b.len());
    let rest = scanned(b, b.len() as int);
    assert(words_of(a) + rest.0 + word_terms(rest.1) =~= words_of(a) + (rest.0 + word_terms(
        rest.1,
    )));
}

/// A word in lowercase.
pub open spec fn lower_word(w: Seq<char>) -> Seq<char> {
    w.map_values(|c: char| lower_first(c))
}

proof fn lemma_scanned_word(w: Seq<char>, n: int)
    requires
        0 <= n <= w.len(),
        forall|i: int| 0 <= i < w.len() ==> is_word_char(#[trigger] w[i]),
    ensures
        scanned(w, n).0.len() == 0,
        scanned(w, n).1 == lower_word(w.subrange(0, n)),
    decreases n,
{
    if n > 0 {
        lemma_scanned_word(w, n - 1);
        assert(is_word_char(w[n - 1]));
        assert(lower_word(w.subrange(0, n)) =~= lower_word(w.subrange(0, n - 1)).push(
            lower_first(w[n - 1]),
        ));
    } else {
        assert(lower_word(w.subrange(0, 0)) =~= Seq::<char>::empty());
    }
}

/// A word of two bytes or more is a term, in lowercase; without an underscore it is the only one.
/// A shorter one is none.
pub proof fn law_a_word_is_a_term(w: Seq<char>)
    requires
        forall|i: int| 0 <= i < w.len() ==> is_word_char(#[trigger] w[i]),
    ensures
        byte_len(lower_word(w)) >= 2 ==> words_of(w).len() > 0 && words_of(w)[0] == lower_word(w),
        byte_len(lower_word(w)) >= 2 && !lower_word(w).contains('_') ==> words_of(w) == seq![
            lower_word(w),
        ],
        byte_len(lower_word(w)) < 2 ==> words_of(w).len() == 0,
{
    lemma_scanned_word(w, w.len() as int);
    assert(w.subrange(0, w.len() as int) =~= w);
    let l = lower_word(w);
    let scan = scanned(w, w.len() as int);
    assert(scan.0 =~= Seq::empty());
    assert(words_of(w) =~= word_terms(l));
    crate::text::lemma_index_of(l, '_', 0);
    if index_of(l, '_', 0) < l.len() {
        assert(l[index_of(l, '_', 0)] == '_');
        assert(l.contains('_'));
    }
}

/// The parts of a name that underscores join are terms too, where they have two bytes or more.
pub proof fn law_parts_of_a_name_are_terms(w: Seq<char>, part: Seq<char>)
    requires
        forall|i: int| 0 <= i < w.len() ==> is_word_char(#[trigger] w[i]),
        lower_word(w).contains('_'),
        byte_len(lower_word(w)) >= 2,
        split_on(lower_word(w), '_').contains(part),
        byte_len(part) >= 2,
    ensures
        words_of(w).contains(part),
{
    lemma_scanned_word(w, w.len() as int);
    assert(w.subrange(0, w.len() as int) =~= w);
    let l = lower_word(w);
    let parts = split_on(l, '_');
    assert(scanned(w, w.len() as int).0 =~= Seq::empty());
    assert(words_of(w) =~= word_terms(l));
    crate::text::lemma_index_of(l, '_', 0);
    let u = choose|u: int| 0 <= u < l.len() && l[u] == '_';
    assert(index_of(l, '_', 0) <= u);
    lemma_keep_members(parts, is_long());
    let m = choose|m: int| 0 <= m < parts.len() && parts[m] == part;
    assert(is_long()(parts[m]));
    let kept = keep(parts, is_long());
    assert(kept.contains(part));
    let k = choose|k: int| 0 <= k < kept.len() && kept[k] == part;
    assert(words_of(w)[k + 1] == part);
}

/// A term is counted as often as it stands among the terms: once more for each further one.
pub proof fn law_occurrences_count(terms: Seq<Seq<char>>, term: Seq<char>, next: Seq<char>)
    ensures
        occurrences(Seq::empty(), term) == 0,
        occurrences(terms.push(next), term) == occurrences(terms, term) + if next == term {
            1nat
        } else {
            0
        },
        occurrences(terms, term) > 0 <==> terms.contains(term),
    decreases terms.len(),
{
    assert(terms.push(next).drop_last() =~= terms);
    lemma_keep_members(terms, is_term(term));
    let kept = keep(terms, is_term(term));
    if kept.len() > 0 {
        assert(is_term(term)(kept[0]));
        assert(terms.contains(kept[0]));
    }
    if terms.contains(term) {
        let i = choose|i: int| 0 <= i < terms.len() && terms[i] == term;
        assert(is_term(term)(terms[i]));
        assert(kept.contains(terms[i]));
    }
}

/// As many documents are ranked as are asked for, all of them if there are no more, and each is
/// one that was scored.
pub proof fn law_best_are_as_many_as_asked(scored: Seq<(String, usize)>, top_k: int, i: int)
    requires
        0 <= top_k,
    ensures
        best(scored, top_k).len() == if top_k <= scored.len() {
            top_k
        } else {
            scored.len() as int
        },
        0 <= i < best(scored, top_k).len() ==> scored.contains(best(scored, top_k)[i]),
{
    law_sorted_is_ordered_permutation(scored, count_ge());
    let all = sorted(scored, count_ge());
    scored.to_multiset_ensures();
    all.to_multiset_ensures();
    assert(scored.to_multiset().len() == all.to_multiset().len());
    if 0 <= i < best(scored, top_k).len() {
        assert(best(scored, top_k)[i] == all[i]);
        assert(all.contains(all[i]));
        assert(all.to_multiset().count(all[i]) > 0);
        assert(scored.to_multiset().contains(all[i]));
    }
}

/// A document that is found under a term is found with the number of times that the term stands
/// in it, and with its own length.
pub proof fn law_hit_counts_the_term(
    docs: Map<Seq<char>, DocTerms>,
    terms: Seq<Seq<char>>,
    hits: Seq<DocHit>,
    term: Seq<char>,
    k: int,
)
    requires
        are_hits(hits, docs, term),
        0 <= k < hits.len(),
        holds_terms(docs[hits[k].doc_id@], terms),
    ensures
        docs.dom().contains(hits[k].doc_id@),
        hits[k].tf == occurrences(terms, term),
        hits[k].tf > 0,
        hits[k].length == terms.len(),
{
    assert(hit_ids(hits)[k] == hits[k].doc_id@);
    assert(hit_ids(hits).contains(hits[k].doc_id@));
    assert(has_term(docs, hits[k].doc_id@, term));
}

/// Texts that differ only in how their characters are composed have the same terms, and a text
/// that is composed already has the words that stand in it.
pub proof fn law_composition_does_not_matter(a: Seq<char>, b: Seq<char>)
    requires
        nfc_text(a) == nfc_text(b),
    ensures
        terms_of(a) == terms_of(b),
        nfc_text(a) == a ==> terms_of(b) == words_of(a),
{
}

} // verus!
