//! Noun clusters: maximal runs of nouns over the disambiguated tags.
use vstd::prelude::*;
use crate::ctx::Ctx;
use crate::document::{Document, Span, is_word_kind, is_whitespace_kind, is_word, is_whitespace};
use crate::lint::{Lint, LintKind, LintSpec, plain, plain_lint, lints_view};
use crate::rules::tags_for;
use crate::tags::{Tags, tags_of, in_heading};
use crate::text::{decimal, push_decimal, push_str, string_from};
use crate::upos::Upos;

verus! {

/// The most nouns ASD-STE100 allows in a row.
pub const MAX_NOUNS: usize = 3;

pub open spec fn cluster_message(n: nat) -> Seq<char> {
    decimal(n) + " nouns in a row; ASD-STE100 allows at most 3. Break the cluster up with a preposition."@
}

/// The findings after a run ends: one if the run was too long.
pub open spec fn report(run: Seq<Span>, out: Seq<LintSpec>) -> Seq<LintSpec> {
    if run.len() > MAX_NOUNS {
        out.push(plain(Span { start: run[0].start, end: run.last().end }, LintKind::Readability, cluster_message(run.len())))
    } else {
        out
    }
}

/// Whitespace neither extends nor ends a run; a noun outside the headings extends it; anything
/// else ends it.
pub open spec fn cluster_step(doc: Document, i: int, st: (Seq<Span>, Seq<LintSpec>)) -> (Seq<Span>, Seq<LintSpec>) {
    let t = doc.tokens@[i];
    if is_whitespace_kind(t.kind) {
        st
    } else if is_word_kind(t.kind) && tags_of(doc).0[i] == Some(Upos::NOUN) && !in_heading(doc.headings@, t.span) {
        (st.0.push(t.span), st.1)
    } else {
        (Seq::empty(), report(st.0, st.1))
    }
}

pub open spec fn cluster_upto(doc: Document, n: int) -> (Seq<Span>, Seq<LintSpec>)
    decreases n,
{
    if n <= 0 {
        (Seq::empty(), Seq::empty())
    } else {
        cluster_step(doc, n - 1, cluster_upto(doc, n - 1))
    }
}

/// The `noun-cluster` findings of a document, in order.
pub open spec fn clusters(doc: Document) -> Seq<LintSpec> {
    let st = cluster_upto(doc, doc.tokens@.len() as int);
    report(st.0, st.1)
}

fn report_run(run: &mut Vec<Span>, out: &mut Vec<Lint>)
    ensures
        final(run)@ == Seq::<Span>::empty(),
        lints_view(final(out)@) == report(old(run)@, lints_view(old(out)@)),
{
    if run.len() > MAX_NOUNS {
        let mut m: Vec<char> = Vec::new();
        push_decimal(&mut m, run.len());
        push_str(&mut m, " nouns in a row; ASD-STE100 allows at most 3. Break the cluster up with a preposition.");
        let span = Span { start: run[0].start, end: run[run.len() - 1].end };
        let l = plain_lint(span, LintKind::Readability, string_from(&m));
        let ghost before = out@;
        out.push(l);
        assert(lints_view(out@) =~= lints_view(before).push(l@));
    }
    run.clear();
}

/// `noun-cluster`: more than three nouns in a row.
pub fn cluster(doc: &Document, tags: &Tags, _ctx: &Ctx) -> (v: Vec<Lint>)
    requires
        tags_for(*doc, *tags),
    ensures
        lints_view(v@) == clusters(*doc),
{
    proof {
        crate::tags::cascade_moves_only_to_admitted_readings(*doc);
    }
    let mut out: Vec<Lint> = Vec::new();
    let mut run: Vec<Span> = Vec::new();
    let mut i: usize = 0;
    assert(lints_view(out@) =~= Seq::<LintSpec>::empty());
    while i < doc.tokens.len()
        invariant
            tags_for(*doc, *tags),
            tags_of(*doc).0.len() == doc.tokens@.len(),
            i <= doc.tokens@.len(),
            (run@, lints_view(out@)) == cluster_upto(*doc, i as int),
        decreases doc.tokens@.len() - i,
    {
        let t = &doc.tokens[i];
        if is_whitespace(&t.kind) {
        } else if is_word(&t.kind) && tags.pos(i) == Some(Upos::NOUN) && !tags.in_heading(t.span) {
            run.push(t.span);
        } else {
            report_run(&mut run, &mut out);
        }
        i = i + 1;
    }
    report_run(&mut run, &mut out);
    out
}

} // verus!
