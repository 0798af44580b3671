//! A tagged Markdown document: the source text, its tokens with their parts of speech and
//! dictionary readings, its headings and its sentences. This is what the rules read.
use vstd::prelude::*;
use crate::text::{string_of, to_lowercase, lowercase};
use crate::upos::Upos;

verus! {

/// A half-open range of character positions in the source.
#[derive(Clone, Copy, Debug, PartialEq, Eq, Structural)]
pub struct Span {
    pub start: usize,
    pub end: usize,
}

impl Span {
    pub open spec fn holds(self, i: int) -> bool {
        self.start <= i < self.end
    }

    pub fn contains(&self, i: usize) -> (b: bool)
        ensures
            b == self.holds(i as int),
    {
        self.start <= i && i < self.end
    }
}

/// What the dictionary and the tagger say of one word.
#[derive(Clone, Debug, PartialEq, Eq)]
pub struct WordMeta {
    /// The tagger's part of speech.
    pub pos_tag: Option<Upos>,
    /// Readings the dictionary admits for the word.
    pub is_verb: bool,
    pub is_noun: bool,
    pub is_adjective: bool,
    pub is_conjunction: bool,
    /// Form flags of the word.
    pub verb_progressive: bool,
    pub verb_past: bool,
    pub verb_past_participle: bool,
    pub verb_third_person: bool,
    pub non_singular_noun: bool,
    /// `Some` when the dictionary records the word as derived from another entry; the entry's
    /// spelling, if the dictionary holds it.
    pub derived_from: Option<Option<String>>,
    /// The lemma of the lowercased word in the table of irregular preterites, if it is there.
    pub irregular_preterite_of: Option<String>,
    /// The singular of the lowercased word in the table of irregular plurals, if it is there.
    pub irregular_plural_of: Option<String>,
}

#[derive(Clone, Debug, PartialEq, Eq)]
pub enum TokenKind {
    /// A word, with what the dictionary knows of it.
    Word(Option<WordMeta>),
    /// A hyphen between two parts of a compound.
    Hyphen,
    /// Code, which no rule reads.
    Unlintable,
    /// Any other token: punctuation, numbers, whitespace.
    Other {
        whitespace: bool,
        /// A sentence ends here.
        terminator: bool,
    },
}

#[derive(Clone, Debug, PartialEq, Eq)]
pub struct Token {
    pub span: Span,
    pub kind: TokenKind,
}

/// A sentence, as the range `first..end` of token indices.
#[derive(Clone, Copy, Debug, PartialEq, Eq, Structural)]
pub struct Sentence {
    pub first: usize,
    pub end: usize,
}

#[derive(Clone, Debug, PartialEq, Eq)]
pub struct Document {
    pub source: Vec<char>,
    pub tokens: Vec<Token>,
    pub headings: Vec<Span>,
    pub sentences: Vec<Sentence>,
}

pub open spec fn is_word_kind(k: TokenKind) -> bool {
    k is Word
}

pub open spec fn meta_of(k: TokenKind) -> Option<WordMeta> {
    match k {
        TokenKind::Word(m) => m,
        _ => None,
    }
}

pub open spec fn is_whitespace_kind(k: TokenKind) -> bool {
    match k {
        TokenKind::Other { whitespace, .. } => whitespace,
        _ => false,
    }
}

pub open spec fn is_terminator_kind(k: TokenKind) -> bool {
    match k {
        TokenKind::Other { terminator, .. } => terminator,
        _ => false,
    }
}

/// The tagger's part of speech for a token: only a word the dictionary knows has one.
pub open spec fn pos_tag_of(k: TokenKind) -> Option<Upos> {
    match meta_of(k) {
        Some(m) => m.pos_tag,
        None => None,
    }
}

pub open spec fn is_past_participle_kind(k: TokenKind) -> bool {
    match meta_of(k) {
        Some(m) => m.verb_past_participle,
        None => false,
    }
}

impl Document {
    /// Every token's span lies within the source, the tokens come in source order without
    /// overlapping, and every sentence is a range of the tokens.
    pub open spec fn wf(&self) -> bool {
        &&& forall|i: int|
            0 <= i < self.tokens@.len() ==> (#[trigger] self.tokens@[i]).span.start <= self.tokens@[i].span.end
                <= self.source@.len()
        &&& forall|i: int, j: int|
            0 <= i < j < self.tokens@.len() ==> (#[trigger] self.tokens@[i]).span.end <= (#[trigger] self.tokens@[j]).span.start
        &&& forall|i: int|
            0 <= i < self.sentences@.len() ==> (#[trigger] self.sentences@[i]).first <= self.sentences@[i].end
                <= self.tokens@.len()
    }

    /// Whether the document is well formed; what `check` needs of it.
    pub fn is_well_formed(&self) -> (b: bool)
        ensures
            b == self.wf(),
    {
        let n = self.tokens.len();
        let mut i: usize = 0;
        while i < n
            invariant
                n == self.tokens@.len(),
                i <= n,
                forall|a: int|
                    0 <= a < i ==> (#[trigger] self.tokens@[a]).span.start <= self.tokens@[a].span.end
                        <= self.source@.len(),
                forall|a: int| 0 <= a < i && a + 1 < n ==> (#[trigger] self.tokens@[a]).span.end <= self.tokens@[a + 1].span.start,
            decreases n - i,
        {
            let t = &self.tokens[i];
            if !(t.span.start <= t.span.end && t.span.end <= self.source.len()) {
                return false;
            }
            if i + 1 < n && t.span.end > self.tokens[i + 1].span.start {
                return false;
            }
            i = i + 1;
        }
        proof {
            assert forall|a: int, b: int| 0 <= a < b < n implies (#[trigger] self.tokens@[a]).span.end
                <= (#[trigger] self.tokens@[b]).span.start by {
                lemma_ordered(self.tokens@, a, b);
            }
        }
        let mut k: usize = 0;
        while k < self.sentences.len()
            invariant
                k <= self.sentences@.len(),
                forall|a: int|
                    0 <= a < k ==> (#[trigger] self.sentences@[a]).first <= self.sentences@[a].end <= self.tokens@.len(),
            decreases self.sentences@.len() - k,
        {
            let s = self.sentences[k];
            if !(s.first <= s.end && s.end <= self.tokens.len()) {
                return false;
            }
            k = k + 1;
        }
        true
    }

    pub open spec fn token(&self, i: int) -> Token {
        self.tokens@[i]
    }

    /// The characters of token `i`.
    pub open spec fn text(&self, i: int) -> Seq<char> {
        self.source@.subrange(self.tokens@[i].span.start as int, self.tokens@[i].span.end as int)
    }

    /// The lowercased characters of token `i`.
    pub open spec fn lower(&self, i: int) -> Seq<char> {
        lowercase(self.text(i))
    }

    pub fn token_text(&self, i: usize) -> (t: Vec<char>)
        requires
            self.wf(),
            i < self.tokens@.len(),
        ensures
            t@ == self.text(i as int),
    {
        let span = self.tokens[i].span;
        let mut out: Vec<char> = Vec::new();
        let mut k = span.start;
        while k < span.end
            invariant
                self.wf(),
                span == self.tokens@[i as int].span,
                span.start <= k <= span.end <= self.source@.len(),
                out@ == self.source@.subrange(span.start as int, k as int),
            decreases span.end - k,
        {
            out.push(self.source[k]);
            k = k + 1;
            assert(out@ =~= self.source@.subrange(span.start as int, k as int));
        }
        out
    }

    pub fn token_string(&self, i: usize) -> (t: String)
        requires
            self.wf(),
            i < self.tokens@.len(),
        ensures
            t@ == self.text(i as int),
    {
        let v = self.token_text(i);
        string_of(v.as_slice())
    }

    pub fn token_lower(&self, i: usize) -> (t: String)
        requires
            self.wf(),
            i < self.tokens@.len(),
        ensures
            t@ == self.lower(i as int),
    {
        let s = self.token_string(i);
        to_lowercase(s.as_str())
    }
}

proof fn lemma_ordered(ts: Seq<Token>, a: int, b: int)
    requires
        0 <= a < b < ts.len(),
        forall|x: int| 0 <= x < ts.len() ==> (#[trigger] ts[x]).span.start <= ts[x].span.end,
        forall|x: int| 0 <= x && x + 1 < ts.len() ==> (#[trigger] ts[x]).span.end <= ts[x + 1].span.start,
    ensures
        ts[a].span.end <= ts[b].span.start,
    decreases b - a,
{
    if b > a + 1 {
        lemma_ordered(ts, a, b - 1);
        assert(ts[b - 1].span.end <= ts[b].span.start);
    }
}

pub fn is_word(k: &TokenKind) -> (b: bool)
    ensures
        b == is_word_kind(*k),
{
    matches!(k, TokenKind::Word(_))
}

pub fn is_whitespace(k: &TokenKind) -> (b: bool)
    ensures
        b == is_whitespace_kind(*k),
{
    match k {
        TokenKind::Other { whitespace, .. } => *whitespace,
        _ => false,
    }
}

pub fn is_terminator(k: &TokenKind) -> (b: bool)
    ensures
        b == is_terminator_kind(*k),
{
    match k {
        TokenKind::Other { terminator, .. } => *terminator,
        _ => false,
    }
}

pub fn meta(k: &TokenKind) -> (m: Option<&WordMeta>)
    ensures
        match meta_of(*k) {
            Some(x) => m == Some(&x),
            None => m is None,
        },
{
    match k {
        TokenKind::Word(Some(m)) => Some(m),
        _ => None,
    }
}

pub fn pos_tag(k: &TokenKind) -> (p: Option<Upos>)
    ensures
        p == pos_tag_of(*k),
{
    match k {
        TokenKind::Word(Some(m)) => m.pos_tag,
        _ => None,
    }
}

pub fn is_past_participle(k: &TokenKind) -> (b: bool)
    ensures
        b == is_past_participle_kind(*k),
{
    match k {
        TokenKind::Word(Some(m)) => m.verb_past_participle,
        _ => false,
    }
}

} // verus!
