//! The rules. Each reads the document and its disambiguated tags and returns its findings.
use vstd::prelude::*;
use crate::document::{Document, Span, is_word_kind, is_word};
use crate::tags::{Tags, TagState, tags_of, in_heading, ints};

pub mod contraction;
pub mod dictionary;
pub mod noun_cluster;
pub mod sentence;
pub mod verb_form;

verus! {

/// The tags a rule is handed are the document's own.
pub open spec fn tags_for(doc: Document, tags: Tags) -> bool {
    &&& doc.wf()
    &&& tags.state() == tags_of(doc)
    &&& tags.heading_spans() == doc.headings@
}

/// Token `i` is a word outside the headings.
pub open spec fn is_prose(doc: Document, i: int) -> bool {
    is_word_kind(doc.tokens@[i].kind) && !in_heading(doc.headings@, doc.tokens@[i].span)
}

/// The indices of the words outside headings among the first `n` tokens, in order.
pub open spec fn prose_indices(doc: Document, n: int) -> Seq<int>
    decreases n,
{
    if n <= 0 {
        Seq::empty()
    } else if is_prose(doc, n - 1) {
        prose_indices(doc, n - 1).push(n - 1)
    } else {
        prose_indices(doc, n - 1)
    }
}

/// The words outside headings: section titles are not sentences.
pub open spec fn prose_words(doc: Document) -> Seq<int> {
    prose_indices(doc, doc.tokens@.len() as int)
}

pub proof fn lemma_prose_indices(doc: Document, n: int)
    ensures
        forall|j: int|
            0 <= j < prose_indices(doc, n).len() ==> 0 <= #[trigger] prose_indices(doc, n)[j] < n && is_prose(
                doc,
                prose_indices(doc, n)[j],
            ),
        forall|a: int, b: int|
            0 <= a < b < prose_indices(doc, n).len() ==> #[trigger] prose_indices(doc, n)[a]
                < #[trigger] prose_indices(doc, n)[b],
    decreases n,
{
    if n > 0 {
        lemma_prose_indices(doc, n - 1);
        let prev = prose_indices(doc, n - 1);
        let cur = prose_indices(doc, n);
        assert forall|j: int| 0 <= j < cur.len() implies 0 <= #[trigger] cur[j] < n && is_prose(doc, cur[j]) by {
            if j < prev.len() {
                assert(0 <= prev[j] < n - 1);
            }
        }
        assert forall|a: int, b: int| 0 <= a < b < cur.len() implies #[trigger] cur[a] < #[trigger] cur[b] by {
            if b < prev.len() {
                assert(prev[a] < prev[b]);
            } else {
                assert(prev[a] < n - 1);
            }
        }
    }
}

/// Word tokens outside headings, by their index into the tokens.
pub fn prose_word_indices(doc: &Document, tags: &Tags) -> (v: Vec<usize>)
    requires
        tags_for(*doc, *tags),
    ensures
        ints(v@) == prose_words(*doc),
        forall|j: int| 0 <= j < v@.len() ==> #[trigger] v@[j] < doc.tokens@.len(),
{
    let mut v: Vec<usize> = Vec::new();
    let mut i: usize = 0;
    assert(ints(v@) =~= prose_indices(*doc, 0));
    while i < doc.tokens.len()
        invariant
            tags_for(*doc, *tags),
            i <= doc.tokens@.len(),
            ints(v@) == prose_indices(*doc, i as int),
            forall|j: int| 0 <= j < v@.len() ==> #[trigger] v@[j] < i,
        decreases doc.tokens@.len() - i,
    {
        let ghost before = v@;
        if is_word(&doc.tokens[i].kind) && !tags.in_heading(doc.tokens[i].span) {
            v.push(i);
            assert(ints(v@) =~= ints(before).push(i as int));
        }
        i = i + 1;
    }
    v
}

} // verus!
