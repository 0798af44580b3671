//! An ordered, cascading disambiguator over the tagger's parts of speech, after LanguageTool's
//! `en/disambiguation.xml`. The document's tokens are not rewritten: this is a side table the
//! rules read instead of the tagger's tag.
use vstd::prelude::*;
use crate::document::{Document, Span, TokenKind, meta_of, is_word_kind, is_terminator_kind, pos_tag_of, is_past_participle_kind, pos_tag, is_word, is_terminator, meta, is_past_participle};
use crate::rules::verb_form::{is_be, is_negation, be_form, negation};
use crate::upos::Upos;

verus! {

/// Parts of speech and immunity, one of each per token.
pub type TagState = (Seq<Option<Upos>>, Seq<bool>);

pub open spec fn hyphen_at(doc: Document, j: int) -> bool {
    0 <= j < doc.tokens@.len() && doc.tokens@[j].kind is Hyphen
}

/// Half of a compound the tokenizer split (`Argument-less`, `1-fold`).
pub open spec fn hyphenated(doc: Document, i: int) -> bool {
    hyphen_at(doc, i - 1) || hyphen_at(doc, i + 1)
}

/// A contraction: `contraction` owns the span, and neither half of `won't` is a word the
/// wordlist has a row for.
pub open spec fn contracted(doc: Document, i: int) -> bool {
    doc.text(i).contains('\'') || doc.text(i).contains('\u{2019}')
}

pub open spec fn initial_pos(doc: Document) -> Seq<Option<Upos>> {
    Seq::new(doc.tokens@.len(), |i: int| pos_tag_of(doc.tokens@[i].kind))
}

pub open spec fn initial_immune(doc: Document) -> Seq<bool> {
    Seq::new(
        doc.tokens@.len(),
        |i: int| is_word_kind(doc.tokens@[i].kind) && (hyphenated(doc, i) || contracted(doc, i)),
    )
}

/// The indices of the word tokens in `start..end`, in order.
pub open spec fn word_indices(doc: Document, start: int, end: int) -> Seq<int>
    decreases end - start,
{
    if end <= start {
        Seq::empty()
    } else if is_word_kind(doc.tokens@[end - 1].kind) {
        word_indices(doc, start, end - 1).push(end - 1)
    } else {
        word_indices(doc, start, end - 1)
    }
}

/// Where the sentence that starts at `start` ends: after the first terminator, or at the end.
pub open spec fn segment_end(doc: Document, start: int) -> int
    decreases doc.tokens@.len() - start,
{
    if start < 0 || start >= doc.tokens@.len() {
        doc.tokens@.len() as int
    } else if is_terminator_kind(doc.tokens@[start].kind) {
        start + 1
    } else {
        segment_end(doc, start + 1)
    }
}

/// How far back negation reaches from word `k` of a sentence.
pub open spec fn negation_start(doc: Document, words: Seq<int>, k: int) -> int
    decreases k,
{
    if k > 0 && is_negation(doc.lower(words[k - 1])) {
        negation_start(doc, words, k - 1)
    } else {
        k
    }
}

/// A past participle under a form of `be`: `passive-voice` owns the span.
pub open spec fn governed_participle(doc: Document, pos: Seq<Option<Upos>>, words: Seq<int>, k: int) -> bool {
    let i = words[k];
    let j = negation_start(doc, words, k);
    &&& pos[i] == Some(Upos::VERB)
    &&& is_past_participle_kind(doc.tokens@[i].kind)
    &&& j > 0
    &&& pos[words[j - 1]] == Some(Upos::AUX)
    &&& is_be(doc.lower(words[j - 1]))
}

pub open spec fn finite_in(pos: Seq<Option<Upos>>, words: Seq<int>) -> bool {
    exists|j: int| 0 <= j < words.len() && (pos[#[trigger] words[j]] == Some(Upos::VERB) || pos[words[j]] == Some(Upos::AUX))
}

pub open spec fn is_noun_reading(doc: Document, n: int) -> bool {
    match meta_of(doc.tokens@[n].kind) {
        Some(m) => m.is_noun,
        None => false,
    }
}

/// The part of speech the cascade moves word `k` of a sentence to, if any. The rules are
/// ordered: the first that matches owns the token.
pub open spec fn retag(doc: Document, pos: Seq<Option<Upos>>, words: Seq<int>, k: int) -> Option<Upos> {
    let i = words[k];
    match (meta_of(doc.tokens@[i].kind), pos[i]) {
        (Some(m), Some(seen)) => {
            let word = doc.lower(i);
            let prev = if k >= 1 { pos[words[k - 1]] } else { None };
            let has_next = k < words.len() - 1;
            let next_pos = if has_next { pos[words[k + 1]] } else { None };
            // Imperative: a sentence-initial word with a verb reading, in a clause with no
            // finite verb.
            if k == 0 && (seen == Upos::ADJ || seen == Upos::NOUN || seen == Upos::PROPN) && m.is_verb
                && !finite_in(pos, words) {
                Some(Upos::VERB)
            // Subordinator.
            } else if (word == "when"@ || word == "where"@) && seen == Upos::ADV && m.is_conjunction {
                Some(Upos::SCONJ)
            // Quantifier.
            } else if (word == "most"@ || word == "less"@ || word == "only"@) && seen == Upos::ADV && m.is_adjective
                && (next_pos == Some(Upos::DET) || next_pos == Some(Upos::NOUN) || next_pos == Some(Upos::ADJ)
                || next_pos == Some(Upos::NUM)) {
                Some(Upos::ADJ)
            // Noun run: the right-hand test reads the dictionary rather than the current tag.
            } else if seen == Upos::VERB && !m.verb_progressive && m.is_noun && (prev == Some(Upos::NOUN) || prev
                == Some(Upos::ADJ) || prev == Some(Upos::DET) || prev == Some(Upos::NUM)) && has_next
                && is_noun_reading(doc, words[k + 1]) {
                Some(Upos::NOUN)
            // Gerund after a noun, which is part of a Technical Name.
            } else if seen == Upos::VERB && m.verb_progressive && m.is_noun && (prev == Some(Upos::NOUN) || prev
                == Some(Upos::ADJ) || prev == Some(Upos::PROPN)) {
                Some(Upos::NOUN)
            } else {
                None
            }
        },
        _ => None,
    }
}

/// One step of the pass: word `k` may become immune, and may be moved to another part of speech.
pub open spec fn step(doc: Document, words: Seq<int>, k: int, st: TagState) -> TagState {
    let i = words[k];
    let immune = if governed_participle(doc, st.0, words, k) { st.1.update(i, true) } else { st.1 };
    let pos = match retag(doc, st.0, words, k) {
        Some(p) => st.0.update(i, Some(p)),
        None => st.0,
    };
    (pos, immune)
}

pub open spec fn run_words(doc: Document, words: Seq<int>, k: int, st: TagState) -> TagState
    decreases words.len() - k,
{
    if k < 0 || k >= words.len() {
        st
    } else {
        run_words(doc, words, k + 1, step(doc, words, k, st))
    }
}

pub open spec fn run_segments(doc: Document, start: int, st: TagState) -> TagState
    decreases doc.tokens@.len() - start,
{
    if start < 0 || start >= doc.tokens@.len() {
        st
    } else {
        let end = segment_end(doc, start);
        if end <= start || end > doc.tokens@.len() {
            st
        } else {
            run_segments(doc, end, run_words(doc, word_indices(doc, start, end), 0, st))
        }
    }
}

/// The disambiguated tags of a document: one left-to-right pass over each sentence.
pub open spec fn tags_of(doc: Document) -> TagState {
    run_segments(doc, 0, (initial_pos(doc), initial_immune(doc)))
}

pub open spec fn ints(v: Seq<usize>) -> Seq<int> {
    v.map_values(|x: usize| x as int)
}

pub proof fn lemma_word_indices_bounds(doc: Document, start: int, end: int)
    ensures
        forall|j: int|
            0 <= j < word_indices(doc, start, end).len() ==> start <= #[trigger] word_indices(doc, start, end)[j] < end,
    decreases end - start,
{
    if end > start {
        lemma_word_indices_bounds(doc, start, end - 1);
        let prev = word_indices(doc, start, end - 1);
        assert forall|j: int| 0 <= j < word_indices(doc, start, end).len() implies start <= #[trigger] word_indices(doc, start, end)[j] < end by {
            if j < prev.len() {
                assert(start <= prev[j] < end - 1);
            }
        }
    }
}

pub proof fn lemma_segment_end(doc: Document, start: int)
    requires
        0 <= start < doc.tokens@.len(),
    ensures
        start < segment_end(doc, start) <= doc.tokens@.len(),
    decreases doc.tokens@.len() - start,
{
    if !is_terminator_kind(doc.tokens@[start].kind) {
        if start + 1 < doc.tokens@.len() {
            lemma_segment_end(doc, start + 1);
        } else {
            assert(segment_end(doc, start + 1) == doc.tokens@.len());
        }
    }
}

/// The tagger's parts of speech after the cascade, which tokens the dictionary rules must not
/// judge, and where the headings are.
pub struct Tags {
    pos: Vec<Option<Upos>>,
    immune: Vec<bool>,
    headings: Vec<Span>,
}

impl Tags {
    pub closed spec fn state(&self) -> TagState {
        (self.pos@, self.immune@)
    }

    pub closed spec fn heading_spans(&self) -> Seq<Span> {
        self.headings@
    }

    pub fn pos(&self, i: usize) -> (p: Option<Upos>)
        requires
            i < self.state().0.len(),
        ensures
            p == self.state().0[i as int],
    {
        self.pos[i]
    }

    pub fn immune(&self, i: usize) -> (b: bool)
        requires
            i < self.state().1.len(),
        ensures
            b == self.state().1[i as int],
    {
        self.immune[i]
    }

    /// Section titles are not sentences.
    pub fn in_heading(&self, span: Span) -> (b: bool)
        ensures
            b == in_heading(self.heading_spans(), span),
    {
        let mut k: usize = 0;
        while k < self.headings.len()
            invariant
                k <= self.headings@.len(),
                forall|j: int| 0 <= j < k ==> !(#[trigger] self.headings@[j]).holds(span.start as int),
            decreases self.headings@.len() - k,
        {
            if self.headings[k].contains(span.start) {
                return true;
            }
            k = k + 1;
        }
        false
    }
}

/// Whether the span starts inside one of the headings.
pub open spec fn in_heading(headings: Seq<Span>, span: Span) -> bool {
    exists|j: int| 0 <= j < headings.len() && (#[trigger] headings[j]).holds(span.start as int)
}

fn contains_apostrophe(t: &Vec<char>) -> (b: bool)
    ensures
        b == (t@.contains('\'') || t@.contains('\u{2019}')),
{
    let mut k: usize = 0;
    while k < t.len()
        invariant
            k <= t@.len(),
            forall|j: int| 0 <= j < k ==> t@[j] != '\'' && t@[j] != '\u{2019}',
        decreases t@.len() - k,
    {
        if t[k] == '\'' || t[k] == '\u{2019}' {
            assert(t@[k as int] == t[k as int]);
            return true;
        }
        k = k + 1;
    }
    false
}

fn is_hyphen(doc: &Document, j: usize) -> (b: bool)
    ensures
        b == hyphen_at(*doc, j as int),
{
    j < doc.tokens.len() && matches!(doc.tokens[j].kind, TokenKind::Hyphen)
}

fn initial(doc: &Document) -> (st: (Vec<Option<Upos>>, Vec<bool>))
    requires
        doc.wf(),
    ensures
        st.0@ == initial_pos(*doc),
        st.1@ == initial_immune(*doc),
{
    let mut pos: Vec<Option<Upos>> = Vec::new();
    let mut immune: Vec<bool> = Vec::new();
    let mut i: usize = 0;
    while i < doc.tokens.len()
        invariant
            doc.wf(),
            i <= doc.tokens@.len(),
            pos@ == initial_pos(*doc).take(i as int),
            immune@ == initial_immune(*doc).take(i as int),
        decreases doc.tokens@.len() - i,
    {
        pos.push(pos_tag(&doc.tokens[i].kind));
        let word = is_word(&doc.tokens[i].kind);
        let hyphened = (i > 0 && is_hyphen(doc, i - 1)) || is_hyphen(doc, i + 1);
        let b = if word {
            if hyphened {
                true
            } else {
                let t = doc.token_text(i);
                contains_apostrophe(&t)
            }
        } else {
            false
        };
        immune.push(b);
        i = i + 1;
        assert(pos@ =~= initial_pos(*doc).take(i as int));
        assert(immune@ =~= initial_immune(*doc).take(i as int));
    }
    assert(pos@ =~= initial_pos(*doc));
    assert(immune@ =~= initial_immune(*doc));
    (pos, immune)
}

fn find_segment_end(doc: &Document, start: usize) -> (end: usize)
    requires
        start < doc.tokens@.len(),
    ensures
        end == segment_end(*doc, start as int),
        start < end <= doc.tokens@.len(),
{
    proof {
        lemma_segment_end(*doc, start as int);
    }
    let mut j = start;
    while j < doc.tokens.len()
        invariant
            start <= j <= doc.tokens@.len(),
            segment_end(*doc, j as int) == segment_end(*doc, start as int),
        decreases doc.tokens@.len() - j,
    {
        if is_terminator(&doc.tokens[j].kind) {
            return j + 1;
        }
        j = j + 1;
    }
    j
}

fn collect_words(doc: &Document, start: usize, end: usize) -> (words: Vec<usize>)
    requires
        start <= end <= doc.tokens@.len(),
    ensures
        ints(words@) == word_indices(*doc, start as int, end as int),
        forall|j: int| 0 <= j < words@.len() ==> start <= #[trigger] words@[j] < end,
{
    let mut words: Vec<usize> = Vec::new();
    let mut j = start;
    assert(ints(words@) =~= word_indices(*doc, start as int, start as int));
    while j < end
        invariant
            start <= j <= end <= doc.tokens@.len(),
            ints(words@) == word_indices(*doc, start as int, j as int),
            forall|x: int| 0 <= x < words@.len() ==> start <= #[trigger] words@[x] < j,
        decreases end - j,
    {
        let ghost before = words@;
        if is_word(&doc.tokens[j].kind) {
            words.push(j);
            assert(ints(words@) =~= ints(before).push(j as int));
        }
        j = j + 1;
    }
    words
}

/// Whether the tagger already saw a finite verb among the words.
fn any_finite(pos: &Vec<Option<Upos>>, words: &Vec<usize>) -> (b: bool)
    requires
        forall|j: int| 0 <= j < words@.len() ==> #[trigger] words@[j] < pos@.len(),
    ensures
        b == finite_in(pos@, ints(words@)),
{
    let mut k: usize = 0;
    while k < words.len()
        invariant
            k <= words@.len(),
            forall|j: int| 0 <= j < words@.len() ==> #[trigger] words@[j] < pos@.len(),
            forall|j: int| 0 <= j < k ==> !(pos@[#[trigger] ints(words@)[j]] == Some(Upos::VERB) || pos@[ints(words@)[j]] == Some(Upos::AUX)),
        decreases words@.len() - k,
    {
        let p = pos[words[k]];
        if p == Some(Upos::VERB) || p == Some(Upos::AUX) {
            assert(ints(words@)[k as int] == words@[k as int] as int);
            return true;
        }
        k = k + 1;
    }
    false
}

/// The spec facts a step needs: the words are token indices in order.
pub open spec fn words_ok(doc: Document, pos: Seq<Option<Upos>>, words: Seq<usize>) -> bool {
    &&& pos.len() == doc.tokens@.len()
    &&& forall|j: int| 0 <= j < words.len() ==> #[trigger] words[j] < doc.tokens@.len()
}

fn governed(doc: &Document, pos: &Vec<Option<Upos>>, words: &Vec<usize>, k: usize) -> (b: bool)
    requires
        doc.wf(),
        words_ok(*doc, pos@, words@),
        k < words@.len(),
    ensures
        b == governed_participle(*doc, pos@, ints(words@), k as int),
{
    let i = words[k];
    if pos[i] != Some(Upos::VERB) || !is_past_participle(&doc.tokens[i].kind) {
        return false;
    }
    let ghost ws = ints(words@);
    let mut j = k;
    while j > 0 && negation(doc.token_lower(words[j - 1]).as_str())
        invariant
            doc.wf(),
            words_ok(*doc, pos@, words@),
            j <= k < words@.len(),
            ws == ints(words@),
            negation_start(*doc, ws, j as int) == negation_start(*doc, ws, k as int),
        decreases j,
    {
        j = j - 1;
    }
    j > 0 && pos[words[j - 1]] == Some(Upos::AUX) && be_form(doc.token_lower(words[j - 1]).as_str())
}

fn retag_word(doc: &Document, pos: &Vec<Option<Upos>>, words: &Vec<usize>, k: usize) -> (r: Option<Upos>)
    requires
        doc.wf(),
        words_ok(*doc, pos@, words@),
        k < words@.len(),
    ensures
        r == retag(*doc, pos@, ints(words@), k as int),
{
    let i = words[k];
    let m = match meta(&doc.tokens[i].kind) {
        Some(m) => m,
        None => return None,
    };
    let seen = match pos[i] {
        Some(p) => p,
        None => return None,
    };
    let lower = doc.token_lower(i);
    let word = lower.as_str();
    let prev = if k >= 1 { pos[words[k - 1]] } else { None };
    let has_next = k < words.len() - 1;
    let next_pos = if has_next { pos[words[k + 1]] } else { None };
    if k == 0 && matches!(seen, Upos::ADJ | Upos::NOUN | Upos::PROPN) && m.is_verb && !any_finite(pos, words) {
        return Some(Upos::VERB);
    }
    if (crate::text::str_eq(word, "when") || crate::text::str_eq(word, "where")) && seen == Upos::ADV && m.is_conjunction {
        return Some(Upos::SCONJ);
    }
    if (crate::text::str_eq(word, "most") || crate::text::str_eq(word, "less") || crate::text::str_eq(word, "only"))
        && seen == Upos::ADV && m.is_adjective && matches!(next_pos, Some(Upos::DET) | Some(Upos::NOUN) | Some(Upos::ADJ) | Some(Upos::NUM)) {
        return Some(Upos::ADJ);
    }
    if seen == Upos::VERB && !m.verb_progressive && m.is_noun && matches!(prev, Some(Upos::NOUN) | Some(Upos::ADJ) | Some(Upos::DET) | Some(Upos::NUM))
        && has_next {
        let next_noun = match meta(&doc.tokens[words[k + 1]].kind) {
            Some(n) => n.is_noun,
            None => false,
        };
        if next_noun {
            return Some(Upos::NOUN);
        }
    }
    if seen == Upos::VERB && m.verb_progressive && m.is_noun && matches!(prev, Some(Upos::NOUN) | Some(Upos::ADJ) | Some(Upos::PROPN)) {
        return Some(Upos::NOUN);
    }
    None
}

impl Tags {
    /// Ordered: the first rule that matches owns the token, so no token is written twice and one
    /// left-to-right pass over each sentence is enough.
    pub fn new(doc: &Document) -> (t: Tags)
        requires
            doc.wf(),
        ensures
            t.state() == tags_of(*doc),
            t.heading_spans() == doc.headings@,
    {
        let (mut pos, mut immune) = initial(doc);
        let n = doc.tokens.len();
        let mut start: usize = 0;
        while start < n
            invariant
                doc.wf(),
                n == doc.tokens@.len(),
                start <= n,
                pos@.len() == n,
                immune@.len() == n,
                run_segments(*doc, start as int, (pos@, immune@)) == tags_of(*doc),
            decreases n - start,
        {
            let end = find_segment_end(doc, start);
            let words = collect_words(doc, start, end);
            let ghost ws = ints(words@);
            let ghost st0 = (pos@, immune@);
            let mut k: usize = 0;
            while k < words.len()
                invariant
                    doc.wf(),
                    n == doc.tokens@.len(),
                    pos@.len() == n,
                    immune@.len() == n,
                    k <= words@.len(),
                    ws == ints(words@),
                    forall|j: int| 0 <= j < words@.len() ==> #[trigger] words@[j] < n,
                    run_words(*doc, ws, k as int, (pos@, immune@)) == run_words(*doc, ws, 0, st0),
                decreases words@.len() - k,
            {
                let g = governed(doc, &pos, &words, k);
                let r = retag_word(doc, &pos, &words, k);
                let i = words[k];
                if g {
                    immune.set(i, true);
                }
                match r {
                    Some(p) => {
                        pos.set(i, Some(p));
                    },
                    None => {},
                }
                k = k + 1;
            }
            start = end;
        }
        Tags { pos, immune, headings: doc.headings.clone() }
    }
}

/// Whether the cascade may leave token `i` at `p`: the tagger's own tag, or a part of speech the
/// dictionary admits for the word.
pub open spec fn admitted(doc: Document, i: int, p: Option<Upos>) -> bool {
    p == pos_tag_of(doc.tokens@[i].kind) || match (meta_of(doc.tokens@[i].kind), p) {
        (Some(m), Some(Upos::VERB)) => m.is_verb,
        (Some(m), Some(Upos::SCONJ)) => m.is_conjunction,
        (Some(m), Some(Upos::ADJ)) => m.is_adjective,
        (Some(m), Some(Upos::NOUN)) => m.is_noun,
        _ => false,
    }
}

pub open spec fn cascade_ok(doc: Document, st: TagState) -> bool {
    &&& st.0.len() == doc.tokens@.len()
    &&& st.1.len() == doc.tokens@.len()
    &&& forall|i: int| 0 <= i < doc.tokens@.len() ==> admitted(doc, i, #[trigger] st.0[i])
    &&& forall|i: int| 0 <= i < doc.tokens@.len() && #[trigger] st.1[i] ==> is_word_kind(doc.tokens@[i].kind)
    &&& forall|i: int| 0 <= i < doc.tokens@.len() && #[trigger] initial_immune(doc)[i] ==> st.1[i]
    &&& forall|i: int| 0 <= i < doc.tokens@.len() && (#[trigger] st.0[i]) is Some ==> pos_tag_of(doc.tokens@[i].kind) is Some
}

proof fn lemma_word_indices_words(doc: Document, start: int, end: int)
    ensures
        forall|j: int|
            0 <= j < word_indices(doc, start, end).len() ==> is_word_kind(doc.tokens@[#[trigger] word_indices(doc, start, end)[j]].kind),
    decreases end - start,
{
    if end > start {
        lemma_word_indices_words(doc, start, end - 1);
        let prev = word_indices(doc, start, end - 1);
        assert forall|j: int| 0 <= j < word_indices(doc, start, end).len() implies is_word_kind(doc.tokens@[#[trigger] word_indices(doc, start, end)[j]].kind) by {
            if j < prev.len() {
                assert(is_word_kind(doc.tokens@[prev[j]].kind));
            }
        }
    }
}

proof fn lemma_run_words_ok(doc: Document, words: Seq<int>, k: int, st: TagState)
    requires
        cascade_ok(doc, st),
        forall|j: int| 0 <= j < words.len() ==> 0 <= #[trigger] words[j] < doc.tokens@.len() && is_word_kind(doc.tokens@[words[j]].kind),
    ensures
        cascade_ok(doc, run_words(doc, words, k, st)),
    decreases words.len() - k,
{
    if 0 <= k < words.len() {
        let i = words[k];
        let next = step(doc, words, k, st);
        assert(0 <= i < doc.tokens@.len());
        assert forall|x: int| 0 <= x < doc.tokens@.len() implies admitted(doc, x, #[trigger] next.0[x]) by {
            if x == i {
                assert(admitted(doc, x, st.0[x]));
            }
        }
        assert forall|x: int| 0 <= x < doc.tokens@.len() && #[trigger] next.1[x] implies is_word_kind(doc.tokens@[x].kind) by {
            if x == i {
                assert(is_word_kind(doc.tokens@[words[k]].kind));
            }
        }
        lemma_run_words_ok(doc, words, k + 1, next);
    }
}

proof fn lemma_run_segments_ok(doc: Document, start: int, st: TagState)
    requires
        cascade_ok(doc, st),
    ensures
        cascade_ok(doc, run_segments(doc, start, st)),
    decreases doc.tokens@.len() - start,
{
    if 0 <= start < doc.tokens@.len() {
        let end = segment_end(doc, start);
        if start < end <= doc.tokens@.len() {
            let ws = word_indices(doc, start, end);
            lemma_word_indices_bounds(doc, start, end);
            lemma_word_indices_words(doc, start, end);
            assert forall|j: int| 0 <= j < ws.len() implies 0 <= #[trigger] ws[j] < doc.tokens@.len() && is_word_kind(doc.tokens@[ws[j]].kind) by {
                assert(start <= ws[j] < end);
            }
            lemma_run_words_ok(doc, ws, 0, st);
            lemma_run_segments_ok(doc, end, run_words(doc, ws, 0, st));
        }
    }
}

/// The cascade only narrows the tagger: every token keeps the tagger's part of speech or moves
/// to one the dictionary admits for it; only a token the tagger tagged has a part of speech; only
/// words are made immune to the dictionary rules, and every half of a split compound and every
/// word with an apostrophe is.
pub proof fn cascade_moves_only_to_admitted_readings(doc: Document)
    ensures
        cascade_ok(doc, tags_of(doc)),
{
    let st = (initial_pos(doc), initial_immune(doc));
    assert(cascade_ok(doc, st));
    lemma_run_segments_ok(doc, 0, st);
}

proof fn lemma_word_indices_increasing(doc: Document, start: int, end: int)
    ensures
        forall|a: int, b: int|
            0 <= a < b < word_indices(doc, start, end).len() ==> #[trigger] word_indices(doc, start, end)[a]
                < #[trigger] word_indices(doc, start, end)[b],
    decreases end - start,
{
    if end > start {
        lemma_word_indices_increasing(doc, start, end - 1);
        lemma_word_indices_bounds(doc, start, end - 1);
        let prev = word_indices(doc, start, end - 1);
        let cur = word_indices(doc, start, end);
        assert forall|a: int, b: int| 0 <= a < b < cur.len() implies #[trigger] cur[a] < #[trigger] cur[b] by {
            if b < prev.len() {
                assert(cur[a] == prev[a] && cur[b] == prev[b]);
            } else {
                assert(cur[a] == prev[a]);
                assert(prev[a] < end - 1);
            }
        }
    }
}

proof fn lemma_run_words_frame(doc: Document, words: Seq<int>, k: int, st: TagState, x: int)
    requires
        0 <= k,
        st.0.len() == st.1.len(),
        forall|j: int| 0 <= j < words.len() ==> 0 <= #[trigger] words[j] < st.0.len(),
        0 <= x < st.0.len(),
        forall|j: int| k <= j < words.len() ==> #[trigger] words[j] != x,
    ensures
        run_words(doc, words, k, st).0.len() == st.0.len(),
        run_words(doc, words, k, st).1.len() == st.1.len(),
        run_words(doc, words, k, st).0[x] == st.0[x],
        run_words(doc, words, k, st).1[x] == st.1[x],
    decreases words.len() - k,
{
    if k < words.len() {
        let next = step(doc, words, k, st);
        assert(words[k] != x);
        lemma_run_words_frame(doc, words, k + 1, next, x);
    }
}

proof fn lemma_run_words_len(doc: Document, words: Seq<int>, k: int, st: TagState)
    requires
        0 <= k,
        st.0.len() == st.1.len(),
        forall|j: int| 0 <= j < words.len() ==> 0 <= #[trigger] words[j] < st.0.len(),
    ensures
        run_words(doc, words, k, st).0.len() == st.0.len(),
        run_words(doc, words, k, st).1.len() == st.1.len(),
    decreases words.len() - k,
{
    if k < words.len() {
        assert(0 <= words[k] < st.0.len());
        lemma_run_words_len(doc, words, k + 1, step(doc, words, k, st));
    }
}

proof fn lemma_run_segments_frame(doc: Document, start: int, st: TagState, x: int)
    requires
        st.0.len() == doc.tokens@.len(),
        st.1.len() == doc.tokens@.len(),
        0 <= x < start,
    ensures
        run_segments(doc, start, st).0[x] == st.0[x],
        run_segments(doc, start, st).1[x] == st.1[x],
    decreases doc.tokens@.len() - start,
{
    if 0 <= start < doc.tokens@.len() {
        let end = segment_end(doc, start);
        if start < end <= doc.tokens@.len() {
            let ws = word_indices(doc, start, end);
            lemma_word_indices_bounds(doc, start, end);
            assert forall|j: int| 0 <= j < ws.len() implies 0 <= #[trigger] ws[j] < st.0.len() by {
                assert(start <= ws[j] < end);
            }
            assert forall|j: int| 0 <= j < ws.len() implies #[trigger] ws[j] != x by {
                assert(start <= ws[j]);
            }
            lemma_run_words_frame(doc, ws, 0, st, x);
            lemma_run_segments_frame(doc, end, run_words(doc, ws, 0, st), x);
        }
    }
}

/// No tag is written twice. The step on word `k` of the sentence that starts at `start` writes
/// that word alone; after it, neither the rest of the sentence nor any later sentence changes
/// the word's part of speech or its immunity.
pub proof fn a_tag_is_written_once(doc: Document, start: int, k: int, st: TagState)
    requires
        0 <= start < doc.tokens@.len(),
        0 <= k < word_indices(doc, start, segment_end(doc, start)).len(),
        st.0.len() == doc.tokens@.len(),
        st.1.len() == doc.tokens@.len(),
    ensures
        ({
            let end = segment_end(doc, start);
            let words = word_indices(doc, start, end);
            let i = words[k];
            let written = step(doc, words, k, st);
            let after = run_segments(doc, end, run_words(doc, words, k + 1, written));
            &&& forall|x: int| 0 <= x < doc.tokens@.len() && x != i ==> #[trigger] written.0[x] == st.0[x]
                && written.1[x] == st.1[x]
            &&& after.0[i] == written.0[i]
            &&& after.1[i] == written.1[i]
        }),
{
    let end = segment_end(doc, start);
    lemma_segment_end(doc, start);
    let words = word_indices(doc, start, end);
    lemma_word_indices_bounds(doc, start, end);
    lemma_word_indices_increasing(doc, start, end);
    let i = words[k];
    assert(start <= i < end);
    let written = step(doc, words, k, st);
    assert forall|j: int| 0 <= j < words.len() implies 0 <= #[trigger] words[j] < written.0.len() by {
        assert(start <= words[j] < end);
    }
    assert forall|j: int| k + 1 <= j < words.len() implies #[trigger] words[j] != i by {
        assert(words[k] < words[j]);
    }
    lemma_run_words_frame(doc, words, k + 1, written, i);
    lemma_run_segments_frame(doc, end, run_words(doc, words, k + 1, written), i);
}

} // verus!
