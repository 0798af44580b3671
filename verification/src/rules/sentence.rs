//! Sentence length.
use vstd::prelude::*;
use crate::ctx::Ctx;
use crate::document::{Document, Sentence, Span, is_word_kind, is_word};
use crate::lint::{Lint, LintKind, LintSpec, plain, plain_lint, lints_view};
use crate::rules::tags_for;
use crate::tags::{Tags, in_heading};
use crate::text::{decimal, push_decimal, push_str, string_from};

verus! {

/// Table cells and list fragments each parse as their own one- or two-word "sentence".
pub const MIN_WORDS: usize = 3;

/// A sentence's span: from the start of its first token to the end of its last.
pub open spec fn sentence_span(doc: Document, s: Sentence) -> Span {
    Span { start: doc.tokens@[s.first as int].span.start, end: doc.tokens@[s.end - 1].span.end }
}

/// The number of words among the tokens `first..end`.
pub open spec fn word_count(doc: Document, first: int, end: int) -> nat
    decreases end - first,
{
    if end <= first {
        0
    } else {
        word_count(doc, first, end - 1) + if is_word_kind(doc.tokens@[end - 1].kind) { 1nat } else { 0nat }
    }
}

pub open spec fn length_message(words: nat, max: nat) -> Seq<char> {
    decimal(words) + " words; ASD-STE100 allows at most "@ + decimal(max) + " here. Split the sentence."@
}

pub open spec fn length_lint(doc: Document, max: nat, s: Sentence) -> Option<LintSpec> {
    if s.first >= s.end {
        None
    } else {
        let span = sentence_span(doc, s);
        let words = word_count(doc, s.first as int, s.end as int);
        if in_heading(doc.headings@, span) || words < MIN_WORDS || words <= max {
            None
        } else {
            Some(plain(span, LintKind::Readability, length_message(words, max)))
        }
    }
}

pub open spec fn lengths_from(doc: Document, max: nat, ss: Seq<Sentence>) -> Seq<LintSpec>
    decreases ss.len(),
{
    if ss.len() == 0 {
        Seq::empty()
    } else {
        match length_lint(doc, max, ss.last()) {
            Some(l) => lengths_from(doc, max, ss.drop_last()).push(l),
            None => lengths_from(doc, max, ss.drop_last()),
        }
    }
}

/// The `sentence-length` findings of a document, in order.
pub open spec fn long_sentences(doc: Document, ctx: Ctx) -> Seq<LintSpec> {
    lengths_from(doc, ctx.config.text_type.spec_max_sentence_words(), doc.sentences@)
}

fn count_words(doc: &Document, s: Sentence) -> (n: usize)
    requires
        doc.wf(),
        s.first <= s.end <= doc.tokens@.len(),
    ensures
        n == word_count(*doc, s.first as int, s.end as int),
{
    let mut n: usize = 0;
    let mut k = s.first;
    while k < s.end
        invariant
            s.first <= k <= s.end <= doc.tokens@.len(),
            n == word_count(*doc, s.first as int, k as int),
            n <= k - s.first,
        decreases s.end - k,
    {
        if is_word(&doc.tokens[k].kind) {
            n = n + 1;
        }
        k = k + 1;
    }
    n
}

/// `sentence-length`: more words than the text type allows, in a sentence of at least three.
pub fn length(doc: &Document, tags: &Tags, ctx: &Ctx) -> (v: Vec<Lint>)
    requires
        tags_for(*doc, *tags),
    ensures
        lints_view(v@) == long_sentences(*doc, *ctx),
{
    let max = ctx.config.text_type.max_sentence_words();
    let ghost ss = doc.sentences@;
    let mut v: Vec<Lint> = Vec::new();
    let mut k: usize = 0;
    assert(ss.take(0) =~= Seq::<Sentence>::empty());
    assert(lints_view(v@) =~= Seq::<LintSpec>::empty());
    while k < doc.sentences.len()
        invariant
            tags_for(*doc, *tags),
            ss == doc.sentences@,
            max == ctx.config.text_type.spec_max_sentence_words(),
            k <= ss.len(),
            lints_view(v@) == lengths_from(*doc, max as nat, ss.take(k as int)),
        decreases ss.len() - k,
    {
        let ghost before = v@;
        assert(ss.take(k + 1).drop_last() =~= ss.take(k as int));
        assert(ss.take(k + 1).last() == ss[k as int]);
        let s = doc.sentences[k];
        assert(doc.sentences@[k as int] == s);
        if s.first < s.end {
            let span = Span { start: doc.tokens[s.first].span.start, end: doc.tokens[s.end - 1].span.end };
            let words = count_words(doc, s);
            if !tags.in_heading(span) && words >= MIN_WORDS && words > max {
                let mut m: Vec<char> = Vec::new();
                push_decimal(&mut m, words);
                push_str(&mut m, " words; ASD-STE100 allows at most ");
                push_decimal(&mut m, max);
                push_str(&mut m, " here. Split the sentence.");
                let l = plain_lint(span, LintKind::Readability, string_from(&m));
                v.push(l);
                assert(lints_view(v@) =~= lints_view(before).push(l@));
            }
        }
        k = k + 1;
    }
    assert(ss.take(ss.len() as int) =~= ss);
    v
}

} // verus!
