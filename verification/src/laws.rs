//! What holds of `check` as a whole: laws over the findings of every document.
use vstd::prelude::*;
use crate::{FindingSpec, findings_of, sorted_by_key, insert_sorted, unsorted, tagged, rule_lints, rule_name, RULE_COUNT};
use crate::ctx::Ctx;
use crate::document::{Document, Span, Sentence};
use crate::lint::LintSpec;
use crate::rules::{prose_words, prose_indices, lemma_prose_indices, is_prose};
use crate::rules::dictionary::{collect, unapproved_lint, wrong_pos_lint, unknown_lint, unknown_entries};
use crate::glossary::Terms;
use crate::upos::Upos;
use crate::rules::sentence::{lengths_from, length_lint, long_sentences};
use crate::rules::noun_cluster::{clusters, cluster_upto, cluster_step, report};
use crate::rules::verb_form::{aux_pairs, aux_pairs_upto, pair_at, skip_negation, passive_from, compound_from, ing_from};
use crate::rules::contraction::contractions_from;

verus! {

proof fn lemma_insert_sorted_contains(s: Seq<FindingSpec>, x: FindingSpec, y: FindingSpec)
    ensures
        insert_sorted(s, x).contains(y) <==> (s.contains(y) || y == x),
    decreases s.len(),
{
    if s.len() > 0 && !crate::key_less(x, s[0]) {
        lemma_insert_sorted_contains(s.drop_first(), x, y);
        let r = insert_sorted(s, x);
        let t = insert_sorted(s.drop_first(), x);
        assert(r == seq![s[0]] + t);
        if t.contains(y) {
            let j = choose|j: int| 0 <= j < t.len() && t[j] == y;
            assert(r[j + 1] == y);
        }
        if r.contains(y) {
            let j = choose|j: int| 0 <= j < r.len() && r[j] == y;
            if j > 0 {
                assert(t[j - 1] == y);
            }
        }
        if s.drop_first().contains(y) {
            let j = choose|j: int| 0 <= j < s.drop_first().len() && s.drop_first()[j] == y;
            assert(s[j + 1] == y);
        }
        if s.contains(y) {
            let j = choose|j: int| 0 <= j < s.len() && s[j] == y;
            if j > 0 {
                assert(s.drop_first()[j - 1] == y);
            } else {
                assert(r[0] == y);
            }
        }
    } else if s.len() > 0 {
        let r = insert_sorted(s, x);
        assert(r == seq![x] + s);
        if r.contains(y) {
            let j = choose|j: int| 0 <= j < r.len() && r[j] == y;
            if j > 0 {
                assert(s[j - 1] == y);
            }
        }
        if s.contains(y) {
            let j = choose|j: int| 0 <= j < s.len() && s[j] == y;
            assert(r[j + 1] == y);
        }
        assert(r[0] == x);
    } else {
        assert(insert_sorted(s, x) == seq![x]);
        assert(seq![x][0] == x);
    }
}

/// Sorting neither adds nor loses a finding.
pub proof fn lemma_sorted_contains(xs: Seq<FindingSpec>, y: FindingSpec)
    ensures
        sorted_by_key(xs).contains(y) <==> xs.contains(y),
    decreases xs.len(),
{
    if xs.len() > 0 {
        lemma_sorted_contains(xs.drop_last(), y);
        lemma_insert_sorted_contains(sorted_by_key(xs.drop_last()), xs.last(), y);
        if xs.drop_last().contains(y) {
            let j = choose|j: int| 0 <= j < xs.drop_last().len() && xs.drop_last()[j] == y;
            assert(xs[j] == y);
        }
        if xs.contains(y) {
            let j = choose|j: int| 0 <= j < xs.len() && xs[j] == y;
            if j < xs.len() - 1 {
                assert(xs.drop_last()[j] == y);
            }
        }
    }
}

pub proof fn lemma_tagged_contains(rule: Seq<char>, ls: Seq<LintSpec>, y: FindingSpec)
    ensures
        tagged(rule, ls).contains(y) <==> (y.0 == rule && ls.contains(y.1)),
{
    if tagged(rule, ls).contains(y) {
        let j = choose|j: int| 0 <= j < tagged(rule, ls).len() && tagged(rule, ls)[j] == y;
        assert(ls[j] == y.1);
    }
    if y.0 == rule && ls.contains(y.1) {
        let j = choose|j: int| 0 <= j < ls.len() && ls[j] == y.1;
        assert(tagged(rule, ls)[j] == y);
    }
}

/// A finding comes from an enabled rule, and is one of that rule's lints.
pub proof fn lemma_unsorted_contains(doc: Document, ctx: Ctx, k: int, y: FindingSpec)
    ensures
        unsorted(doc, ctx, k).contains(y) <==> exists|r: int|
            0 <= r < k && crate::ctx::enabled(ctx.config.disable@, rule_name(r)) && y.0 == rule_name(r) && #[trigger] rule_lints(
                doc,
                ctx,
                r,
            ).contains(y.1),
    decreases k,
{
    if k > 0 {
        lemma_unsorted_contains(doc, ctx, k - 1, y);
        let prev = unsorted(doc, ctx, k - 1);
        let t = tagged(rule_name(k - 1), rule_lints(doc, ctx, k - 1));
        lemma_tagged_contains(rule_name(k - 1), rule_lints(doc, ctx, k - 1), y);
        if crate::ctx::enabled(ctx.config.disable@, rule_name(k - 1)) {
            let all = prev + t;
            if all.contains(y) {
                let j = choose|j: int| 0 <= j < all.len() && all[j] == y;
                if j < prev.len() {
                    assert(prev[j] == y);
                } else {
                    assert(t[j - prev.len()] == y);
                }
            }
            if prev.contains(y) {
                let j = choose|j: int| 0 <= j < prev.len() && prev[j] == y;
                assert(all[j] == y);
            }
            if t.contains(y) {
                let j = choose|j: int| 0 <= j < t.len() && t[j] == y;
                assert(all[j + prev.len()] == y);
            }
        }
    }
}

/// A finding of `check` is a lint of an enabled rule, tagged with the rule's name; and each such
/// lint is a finding.
pub proof fn findings_are_the_enabled_rules_lints(doc: Document, ctx: Ctx, y: FindingSpec)
    ensures
        findings_of(doc, ctx).contains(y) <==> exists|r: int|
            0 <= r < RULE_COUNT && crate::ctx::enabled(ctx.config.disable@, rule_name(r)) && y.0 == rule_name(r)
                && #[trigger] rule_lints(doc, ctx, r).contains(y.1),
{
    lemma_sorted_contains(unsorted(doc, ctx, RULE_COUNT as int), y);
    lemma_unsorted_contains(doc, ctx, RULE_COUNT as int, y);
}

/// A span that indexes the source: it starts no later than it ends, and ends within it.
pub open spec fn in_source(doc: Document, span: Span) -> bool {
    span.start <= span.end <= doc.source@.len()
}

pub open spec fn all_in_source(doc: Document, ls: Seq<LintSpec>) -> bool {
    forall|j: int| 0 <= j < ls.len() ==> in_source(doc, (#[trigger] ls[j]).span)
}

pub open spec fn valid_indices(doc: Document, ws: Seq<int>) -> bool {
    forall|j: int| 0 <= j < ws.len() ==> 0 <= #[trigger] ws[j] < doc.tokens@.len()
}

proof fn lemma_push_in_source(doc: Document, ls: Seq<LintSpec>, l: LintSpec)
    requires
        all_in_source(doc, ls),
        in_source(doc, l.span),
    ensures
        all_in_source(doc, ls.push(l)),
{
    assert forall|j: int| 0 <= j < ls.push(l).len() implies in_source(doc, (#[trigger] ls.push(l)[j]).span) by {
        if j < ls.len() {
            assert(ls.push(l)[j] == ls[j]);
        }
    }
}

proof fn lemma_collect_in_source(doc: Document, ctx: Ctx, ws: Seq<int>, which: nat)
    requires
        doc.wf(),
        valid_indices(doc, ws),
    ensures
        all_in_source(doc, collect(doc, ctx, ws, which)),
    decreases ws.len(),
{
    if ws.len() > 0 {
        assert(valid_indices(doc, ws.drop_last())) by {
            assert forall|j: int| 0 <= j < ws.drop_last().len() implies 0 <= #[trigger] ws.drop_last()[j] < doc.tokens@.len() by {
                assert(ws.drop_last()[j] == ws[j]);
            }
        }
        lemma_collect_in_source(doc, ctx, ws.drop_last(), which);
        let i = ws.last();
        assert(0 <= i < doc.tokens@.len());
        assert(in_source(doc, doc.tokens@[i].span));
        let one = if which == 0 {
            unapproved_lint(doc, ctx, i)
        } else if which == 1 {
            wrong_pos_lint(doc, ctx, i)
        } else {
            unknown_lint(doc, ctx, i)
        };
        if one is Some {
            lemma_push_in_source(doc, collect(doc, ctx, ws.drop_last(), which), one->0);
        }
    }
}

proof fn lemma_drop_last_valid(doc: Document, ws: Seq<int>)
    requires
        valid_indices(doc, ws),
        ws.len() > 0,
    ensures
        valid_indices(doc, ws.drop_last()),
        0 <= ws.last() < doc.tokens@.len(),
{
    assert forall|j: int| 0 <= j < ws.drop_last().len() implies 0 <= #[trigger] ws.drop_last()[j] < doc.tokens@.len() by {
        assert(ws.drop_last()[j] == ws[j]);
    }
}

proof fn lemma_ing_in_source(doc: Document, ws: Seq<int>)
    requires
        doc.wf(),
        valid_indices(doc, ws),
    ensures
        all_in_source(doc, ing_from(doc, ws)),
    decreases ws.len(),
{
    if ws.len() > 0 {
        lemma_drop_last_valid(doc, ws);
        lemma_ing_in_source(doc, ws.drop_last());
        assert(in_source(doc, doc.tokens@[ws.last()].span));
        if ing_from(doc, ws) != ing_from(doc, ws.drop_last()) {
            lemma_push_in_source(doc, ing_from(doc, ws.drop_last()), ing_from(doc, ws).last());
            assert(ing_from(doc, ws) == ing_from(doc, ws.drop_last()).push(ing_from(doc, ws).last()));
        }
    }
}

proof fn lemma_contractions_in_source(doc: Document, ws: Seq<int>)
    requires
        doc.wf(),
        valid_indices(doc, ws),
    ensures
        all_in_source(doc, contractions_from(doc, ws)),
    decreases ws.len(),
{
    if ws.len() > 0 {
        lemma_drop_last_valid(doc, ws);
        lemma_contractions_in_source(doc, ws.drop_last());
        assert(in_source(doc, doc.tokens@[ws.last()].span));
        if contractions_from(doc, ws) != contractions_from(doc, ws.drop_last()) {
            lemma_push_in_source(doc, contractions_from(doc, ws.drop_last()), contractions_from(doc, ws).last());
            assert(contractions_from(doc, ws) == contractions_from(doc, ws.drop_last()).push(contractions_from(doc, ws).last()));
        }
    }
}

proof fn lemma_lengths_in_source(doc: Document, max: nat, ss: Seq<crate::document::Sentence>)
    requires
        doc.wf(),
        forall|j: int| 0 <= j < ss.len() ==> (#[trigger] ss[j]).first <= ss[j].end <= doc.tokens@.len(),
    ensures
        all_in_source(doc, lengths_from(doc, max, ss)),
    decreases ss.len(),
{
    if ss.len() > 0 {
        let s = ss.last();
        assert(s.first <= s.end <= doc.tokens@.len());
        lemma_lengths_in_source(doc, max, ss.drop_last());
        match length_lint(doc, max, s) {
            Some(l) => {
                let a = s.first as int;
                let b = s.end - 1;
                assert(doc.tokens@[a].span.start <= doc.tokens@[a].span.end);
                assert(doc.tokens@[b].span.start <= doc.tokens@[b].span.end <= doc.source@.len());
                if a < b {
                    assert(doc.tokens@[a].span.end <= doc.tokens@[b].span.start);
                }
                lemma_push_in_source(doc, lengths_from(doc, max, ss.drop_last()), l);
            },
            None => {},
        }
    }
}

pub open spec fn run_ok(doc: Document, run: Seq<Span>, n: int) -> bool {
    &&& forall|a: int| 0 <= a < run.len() ==> in_source(doc, #[trigger] run[a])
    &&& forall|a: int, b: int| 0 <= a < b < run.len() ==> (#[trigger] run[a]).end <= (#[trigger] run[b]).start
    &&& n >= 1 ==> forall|a: int| 0 <= a < run.len() ==> (#[trigger] run[a]).end <= doc.tokens@[n - 1].span.end
    &&& n < 1 ==> run.len() == 0
}

proof fn lemma_report_in_source(doc: Document, run: Seq<Span>, out: Seq<LintSpec>, n: int)
    requires
        run_ok(doc, run, n),
        all_in_source(doc, out),
    ensures
        all_in_source(doc, report(run, out)),
{
    if run.len() > crate::rules::noun_cluster::MAX_NOUNS {
        assert(in_source(doc, run[0]));
        assert(in_source(doc, run.last()));
        assert(run[0].end <= run[run.len() - 1].start);
        lemma_push_in_source(doc, out, report(run, out).last());
        assert(report(run, out) == out.push(report(run, out).last()));
    }
}

proof fn lemma_cluster_upto(doc: Document, n: int)
    requires
        doc.wf(),
        0 <= n <= doc.tokens@.len(),
    ensures
        run_ok(doc, cluster_upto(doc, n).0, n),
        all_in_source(doc, cluster_upto(doc, n).1),
    decreases n,
{
    if n > 0 {
        lemma_cluster_upto(doc, n - 1);
        let st = cluster_upto(doc, n - 1);
        let run = st.0;
        let t = doc.tokens@[n - 1];
        assert(in_source(doc, t.span));
        if n >= 2 {
            assert(doc.tokens@[n - 2].span.end <= t.span.start);
        }
        let next = cluster_step(doc, n - 1, st);
        if next == (run.push(t.span), st.1) {
            assert forall|a: int, b: int| 0 <= a < b < run.push(t.span).len() implies (#[trigger] run.push(t.span)[a]).end
                <= (#[trigger] run.push(t.span)[b]).start by {
                if b == run.len() {
                    assert(run[a].end <= doc.tokens@[n - 2].span.end);
                }
            }
            assert forall|a: int| 0 <= a < run.push(t.span).len() implies (#[trigger] run.push(t.span)[a]).end <= t.span.end by {
                if a < run.len() {
                    assert(run[a].end <= doc.tokens@[n - 2].span.end);
                }
            }
        } else if next == st {
            assert forall|a: int| 0 <= a < run.len() implies (#[trigger] run[a]).end <= t.span.end by {
                assert(run[a].end <= doc.tokens@[n - 2].span.end);
            }
        } else {
            lemma_report_in_source(doc, run, st.1, n - 1);
        }
    }
}

proof fn lemma_clusters_in_source(doc: Document)
    requires
        doc.wf(),
    ensures
        all_in_source(doc, clusters(doc)),
{
    let n = doc.tokens@.len() as int;
    lemma_cluster_upto(doc, n);
    lemma_report_in_source(doc, cluster_upto(doc, n).0, cluster_upto(doc, n).1, n);
}

proof fn lemma_skip_negation_ge(doc: Document, ws: Seq<int>, j: int)
    ensures
        skip_negation(doc, ws, j) >= j,
    decreases ws.len() - j,
{
    if 0 <= j < ws.len() && crate::rules::verb_form::is_negation(doc.lower(ws[j])) {
        lemma_skip_negation_ge(doc, ws, j + 1);
    }
}

pub open spec fn pairs_ok(doc: Document, ps: Seq<(int, int)>) -> bool {
    forall|j: int| 0 <= j < ps.len() ==> 0 <= (#[trigger] ps[j]).0 < ps[j].1 < doc.tokens@.len()
}

proof fn lemma_pairs_ok(doc: Document, pos: Seq<Option<crate::upos::Upos>>, ws: Seq<int>, n: int, have: bool)
    requires
        valid_indices(doc, ws),
        forall|a: int, b: int| 0 <= a < b < ws.len() ==> #[trigger] ws[a] < #[trigger] ws[b],
        n <= ws.len(),
    ensures
        pairs_ok(doc, aux_pairs_upto(doc, pos, ws, n, have)),
    decreases n,
{
    if n > 0 {
        lemma_pairs_ok(doc, pos, ws, n - 1, have);
        let prev = aux_pairs_upto(doc, pos, ws, n - 1, have);
        match pair_at(doc, pos, ws, n - 1, have) {
            Some(p) => {
                let j = skip_negation(doc, ws, n);
                lemma_skip_negation_ge(doc, ws, n);
                assert(ws[n - 1] < ws[j]);
                assert forall|x: int| 0 <= x < prev.push(p).len() implies 0 <= (#[trigger] prev.push(p)[x]).0 < prev.push(p)[x].1
                    < doc.tokens@.len() by {
                    if x < prev.len() {
                        assert(prev.push(p)[x] == prev[x]);
                    }
                }
            },
            None => {},
        }
    }
}

proof fn lemma_pair_span(doc: Document, p: (int, int))
    requires
        doc.wf(),
        0 <= p.0 < p.1 < doc.tokens@.len(),
    ensures
        in_source(doc, crate::rules::verb_form::pair_span(doc, p)),
{
    assert(doc.tokens@[p.0].span.end <= doc.tokens@[p.1].span.start);
    assert(doc.tokens@[p.0].span.start <= doc.tokens@[p.0].span.end);
    assert(doc.tokens@[p.1].span.start <= doc.tokens@[p.1].span.end <= doc.source@.len());
}

proof fn lemma_passive_in_source(doc: Document, ps: Seq<(int, int)>)
    requires
        doc.wf(),
        pairs_ok(doc, ps),
    ensures
        all_in_source(doc, passive_from(doc, ps)),
        all_in_source(doc, compound_from(doc, ps)),
    decreases ps.len(),
{
    if ps.len() > 0 {
        assert(pairs_ok(doc, ps.drop_last())) by {
            assert forall|j: int| 0 <= j < ps.drop_last().len() implies 0 <= (#[trigger] ps.drop_last()[j]).0 < ps.drop_last()[j].1
                < doc.tokens@.len() by {
                assert(ps.drop_last()[j] == ps[j]);
            }
        }
        lemma_passive_in_source(doc, ps.drop_last());
        lemma_pair_span(doc, ps.last());
        if passive_from(doc, ps) != passive_from(doc, ps.drop_last()) {
            lemma_push_in_source(doc, passive_from(doc, ps.drop_last()), passive_from(doc, ps).last());
            assert(passive_from(doc, ps) == passive_from(doc, ps.drop_last()).push(passive_from(doc, ps).last()));
        }
        lemma_push_in_source(doc, compound_from(doc, ps.drop_last()), compound_from(doc, ps).last());
        assert(compound_from(doc, ps) == compound_from(doc, ps.drop_last()).push(compound_from(doc, ps).last()));
    }
}

proof fn lemma_rule_in_source(doc: Document, ctx: Ctx, r: int)
    requires
        doc.wf(),
    ensures
        all_in_source(doc, rule_lints(doc, ctx, r)),
{
    let n = doc.tokens@.len() as int;
    lemma_prose_indices(doc, n);
    let ws = prose_words(doc);
    assert(valid_indices(doc, ws));
    if r <= 2 {
        lemma_collect_in_source(doc, ctx, ws, r as nat);
    } else if r == 3 {
        lemma_lengths_in_source(doc, ctx.config.text_type.spec_max_sentence_words(), doc.sentences@);
    } else if r == 4 {
        lemma_clusters_in_source(doc);
    } else if r == 5 || r == 6 {
        let pos = crate::tags::tags_of(doc).0;
        lemma_pairs_ok(doc, pos, ws, ws.len() as int, r == 6);
        lemma_passive_in_source(doc, aux_pairs(doc, r == 6));
    } else if r == 7 {
        lemma_ing_in_source(doc, ws);
    } else {
        lemma_contractions_in_source(doc, ws);
    }
}

/// Spans index the original text: every finding's span starts no later than it ends, and ends
/// within the source, so an editor can act on it.
pub proof fn findings_index_the_source(doc: Document, ctx: Ctx)
    requires
        doc.wf(),
    ensures
        forall|j: int| 0 <= j < findings_of(doc, ctx).len() ==> in_source(doc, (#[trigger] findings_of(doc, ctx)[j]).1.span),
{
    assert forall|j: int| 0 <= j < findings_of(doc, ctx).len() implies in_source(doc, (#[trigger] findings_of(doc, ctx)[j]).1.span) by {
        let y = findings_of(doc, ctx)[j];
        findings_are_the_enabled_rules_lints(doc, ctx, y);
        let r = choose|r: int|
            0 <= r < RULE_COUNT && crate::ctx::enabled(ctx.config.disable@, rule_name(r)) && y.0 == rule_name(r)
                && #[trigger] rule_lints(doc, ctx, r).contains(y.1);
        lemma_rule_in_source(doc, ctx, r);
        let ls = rule_lints(doc, ctx, r);
        let x = choose|x: int| 0 <= x < ls.len() && ls[x] == y.1;
        assert(in_source(doc, ls[x].span));
    }
}

/// Every finding comes from a rule that is switched on: `disable` silences a rule entirely.
pub proof fn disabled_rules_are_silent(doc: Document, ctx: Ctx, y: FindingSpec)
    requires
        findings_of(doc, ctx).contains(y),
    ensures
        crate::ctx::enabled(ctx.config.disable@, y.0),
{
    findings_are_the_enabled_rules_lints(doc, ctx, y);
}

/// A glossary with more terms, declared in no fewer parts of speech.
pub open spec fn declares_more(small: crate::glossary::Glossary, big: crate::glossary::Glossary) -> bool {
    &&& small@.0.dom().subset_of(big@.0.dom())
    &&& small@.1.dom().subset_of(big@.1.dom())
}

pub open spec fn is_dictionary_rule(name: Seq<char>) -> bool {
    name == rule_name(0) || name == rule_name(1) || name == rule_name(2)
}

proof fn lemma_verdict_monotone(doc: Document, small: Ctx, big: Ctx, i: int)
    requires
        small.wordset == big.wordset,
        declares_more(small.glossary, big.glossary),
    ensures
        crate::rules::dictionary::ctx_verdict(doc, big, i) is Some ==> crate::rules::dictionary::ctx_verdict(doc, big, i)
            == crate::rules::dictionary::ctx_verdict(doc, small, i),
{
    let gs = small.glossary@;
    let gb = big.glossary@;
    let st = crate::tags::tags_of(doc);
    if !st.1[i] && st.0[i] is Some {
        let used = st.0[i]->0;
        let word = doc.lower(i);
        let lemma = crate::rules::dictionary::lemma_of(doc.tokens@[i].kind);
        if crate::glossary::glossary_allows(gs, word, used) {
            assert(crate::glossary::glossary_allows(gb, word, used));
        }
        if lemma is Some && crate::glossary::glossary_allows(gs, lemma->0, used) {
            assert(crate::glossary::glossary_allows(gb, lemma->0, used));
        }
    }
}

proof fn lemma_collect_monotone(doc: Document, small: Ctx, big: Ctx, ws: Seq<int>, which: nat, l: LintSpec)
    requires
        small.wordset == big.wordset,
        declares_more(small.glossary, big.glossary),
        collect(doc, big, ws, which).contains(l),
    ensures
        collect(doc, small, ws, which).contains(l),
    decreases ws.len(),
{
    if ws.len() > 0 {
        let i = ws.last();
        lemma_verdict_monotone(doc, small, big, i);
        let big_prev = collect(doc, big, ws.drop_last(), which);
        let small_prev = collect(doc, small, ws.drop_last(), which);
        let big_all = collect(doc, big, ws, which);
        let small_all = collect(doc, small, ws, which);
        let j = choose|j: int| 0 <= j < big_all.len() && big_all[j] == l;
        if j < big_prev.len() {
            assert(big_prev[j] == l);
            lemma_collect_monotone(doc, small, big, ws.drop_last(), which, l);
            let x = choose|x: int| 0 <= x < small_prev.len() && small_prev[x] == l;
            if small_all != small_prev {
                assert(small_all == small_prev.push(small_all.last()));
                assert(small_all[x] == l);
            }
        } else {
            assert(big_all != big_prev);
            assert(big_all == big_prev.push(l));
            assert(small_all == small_prev.push(l));
            assert(small_all[small_prev.len() as int] == l);
        }
    }
}

/// Declaring words only subtracts: a glossary entry may take a dictionary finding away and adds
/// none, and it moves no finding of a rule that does not read the glossary.
pub proof fn glossary_only_subtracts(doc: Document, small: Ctx, big: Ctx, y: FindingSpec)
    requires
        small.wordset == big.wordset,
        small.config == big.config,
        declares_more(small.glossary, big.glossary),
    ensures
        findings_of(doc, big).contains(y) ==> findings_of(doc, small).contains(y),
        !is_dictionary_rule(y.0) ==> (findings_of(doc, big).contains(y) <==> findings_of(doc, small).contains(y)),
{
    findings_are_the_enabled_rules_lints(doc, small, y);
    findings_are_the_enabled_rules_lints(doc, big, y);
    if findings_of(doc, big).contains(y) {
        let r = choose|r: int|
            0 <= r < RULE_COUNT && crate::ctx::enabled(big.config.disable@, rule_name(r)) && y.0 == rule_name(r)
                && #[trigger] rule_lints(doc, big, r).contains(y.1);
        if r <= 2 {
            lemma_collect_monotone(doc, small, big, prose_words(doc), r as nat, y.1);
        }
        assert(rule_lints(doc, small, r).contains(y.1));
    }
    if !is_dictionary_rule(y.0) && findings_of(doc, small).contains(y) {
        let r = choose|r: int|
            0 <= r < RULE_COUNT && crate::ctx::enabled(small.config.disable@, rule_name(r)) && y.0 == rule_name(r)
                && #[trigger] rule_lints(doc, small, r).contains(y.1);
        assert(r > 2);
        assert(rule_lints(doc, big, r) == rule_lints(doc, small, r));
    }
}

proof fn lemma_lengths_shrink(doc: Document, lo: nat, hi: nat, ss: Seq<crate::document::Sentence>, l: LintSpec)
    requires
        lo <= hi,
        lengths_from(doc, hi, ss).contains(l),
    ensures
        exists|m: LintSpec| lengths_from(doc, lo, ss).contains(m) && m.span == l.span,
    decreases ss.len(),
{
    if ss.len() > 0 {
        let hi_prev = lengths_from(doc, hi, ss.drop_last());
        let lo_prev = lengths_from(doc, lo, ss.drop_last());
        let hi_all = lengths_from(doc, hi, ss);
        let lo_all = lengths_from(doc, lo, ss);
        let j = choose|j: int| 0 <= j < hi_all.len() && hi_all[j] == l;
        if j < hi_prev.len() {
            assert(hi_prev[j] == l);
            lemma_lengths_shrink(doc, lo, hi, ss.drop_last(), l);
            let m = choose|m: LintSpec| lo_prev.contains(m) && m.span == l.span;
            let x = choose|x: int| 0 <= x < lo_prev.len() && lo_prev[x] == m;
            if lo_all != lo_prev {
                assert(lo_all == lo_prev.push(lo_all.last()));
                assert(lo_all[x] == m);
            }
            assert(lo_all.contains(m));
        } else {
            assert(hi_all != hi_prev);
            assert(length_lint(doc, hi, ss.last()) is Some);
            assert(length_lint(doc, lo, ss.last()) is Some);
            let m = length_lint(doc, lo, ss.last())->0;
            assert(lo_all == lo_prev.push(m));
            assert(lo_all[lo_prev.len() as int] == m);
            assert(lo_all.contains(m));
        }
    }
}

/// The dictionary rules read the context's wordlist and glossary and nothing else of it.
proof fn lemma_collect_same(doc: Document, a: Ctx, b: Ctx, ws: Seq<int>, which: nat)
    requires
        a.wordset == b.wordset,
        a.glossary == b.glossary,
    ensures
        collect(doc, a, ws, which) == collect(doc, b, ws, which),
    decreases ws.len(),
{
    if ws.len() > 0 {
        lemma_collect_same(doc, a, b, ws.drop_last(), which);
    }
}

/// Descriptive text only raises the sentence-length ceiling: every finding under `Description`
/// has a finding of the same rule over the same span under `Procedure`.
pub proof fn description_only_subtracts(doc: Document, procedure: Ctx, description: Ctx, y: FindingSpec)
    requires
        procedure.wordset == description.wordset,
        procedure.glossary == description.glossary,
        procedure.config.disable == description.config.disable,
        procedure.config.text_type == crate::config::TextType::Procedure,
        description.config.text_type == crate::config::TextType::Description,
        findings_of(doc, description).contains(y),
    ensures
        exists|z: FindingSpec| findings_of(doc, procedure).contains(z) && z.0 == y.0 && z.1.span == y.1.span,
{
    findings_are_the_enabled_rules_lints(doc, description, y);
    let r = choose|r: int|
        0 <= r < RULE_COUNT && crate::ctx::enabled(description.config.disable@, rule_name(r)) && y.0 == rule_name(r)
            && #[trigger] rule_lints(doc, description, r).contains(y.1);
    if r == 3 {
        lemma_lengths_shrink(doc, 20, 25, doc.sentences@, y.1);
        let m = choose|m: LintSpec| lengths_from(doc, 20, doc.sentences@).contains(m) && m.span == y.1.span;
        let z = (y.0, m);
        assert(long_sentences(doc, procedure) == lengths_from(doc, 20, doc.sentences@));
        assert(rule_lints(doc, procedure, 3).contains(z.1));
        assert(crate::ctx::enabled(procedure.config.disable@, rule_name(3)));
        findings_are_the_enabled_rules_lints(doc, procedure, z);
        assert(findings_of(doc, procedure).contains(z));
    } else {
        if r <= 2 {
            lemma_collect_same(doc, procedure, description, prose_words(doc), r as nat);
        }
        assert(rule_lints(doc, procedure, r) == rule_lints(doc, description, r));
        findings_are_the_enabled_rules_lints(doc, procedure, y);
        assert(findings_of(doc, procedure).contains(y));
    }
}

pub open spec fn has_no_words(doc: Document) -> bool {
    forall|i: int| 0 <= i < doc.tokens@.len() ==> !crate::document::is_word_kind(#[trigger] doc.tokens@[i].kind)
}

proof fn lemma_no_prose(doc: Document, n: int)
    requires
        has_no_words(doc),
        n <= doc.tokens@.len(),
    ensures
        prose_indices(doc, n).len() == 0,
    decreases n,
{
    if n > 0 {
        lemma_no_prose(doc, n - 1);
    }
}

proof fn lemma_no_word_count(doc: Document, first: int, end: int)
    requires
        has_no_words(doc),
        0 <= first,
        end <= doc.tokens@.len(),
    ensures
        crate::rules::sentence::word_count(doc, first, end) == 0,
    decreases end - first,
{
    if end > first {
        lemma_no_word_count(doc, first, end - 1);
    }
}

proof fn lemma_no_long_sentences(doc: Document, max: nat, ss: Seq<crate::document::Sentence>)
    requires
        doc.wf(),
        has_no_words(doc),
        forall|j: int| 0 <= j < ss.len() ==> (#[trigger] ss[j]).first <= ss[j].end <= doc.tokens@.len(),
    ensures
        lengths_from(doc, max, ss).len() == 0,
    decreases ss.len(),
{
    if ss.len() > 0 {
        let s = ss.last();
        assert(s.first <= s.end <= doc.tokens@.len());
        lemma_no_word_count(doc, s.first as int, s.end as int);
        lemma_no_long_sentences(doc, max, ss.drop_last());
    }
}

proof fn lemma_no_clusters(doc: Document, n: int)
    requires
        has_no_words(doc),
        n <= doc.tokens@.len(),
    ensures
        cluster_upto(doc, n).0.len() == 0,
        cluster_upto(doc, n).1.len() == 0,
    decreases n,
{
    if n > 0 {
        lemma_no_clusters(doc, n - 1);
    }
}

/// A document with no words, such as one that is wholly a code fence, has nothing to report.
pub proof fn wordless_documents_have_no_findings(doc: Document, ctx: Ctx)
    requires
        doc.wf(),
        has_no_words(doc),
    ensures
        findings_of(doc, ctx).len() == 0,
{
    let n = doc.tokens@.len() as int;
    lemma_no_prose(doc, n);
    lemma_no_long_sentences(doc, ctx.config.text_type.spec_max_sentence_words(), doc.sentences@);
    lemma_no_clusters(doc, n);
    assert forall|r: int| 0 <= r < RULE_COUNT implies (#[trigger] rule_lints(doc, ctx, r)).len() == 0 by {
        if r == 5 || r == 6 {
            assert(aux_pairs(doc, r == 6).len() == 0);
        }
    }
    if findings_of(doc, ctx).len() > 0 {
        let y = findings_of(doc, ctx)[0];
        assert(findings_of(doc, ctx).contains(y));
        findings_are_the_enabled_rules_lints(doc, ctx, y);
        let r = choose|r: int|
            0 <= r < RULE_COUNT && crate::ctx::enabled(ctx.config.disable@, rule_name(r)) && y.0 == rule_name(r)
                && #[trigger] rule_lints(doc, ctx, r).contains(y.1);
        assert(rule_lints(doc, ctx, r).len() == 0);
    }
}

/// An out-of-vocabulary entry comes from the verdict of a word it names, and every such verdict
/// gives an entry.
proof fn lemma_unknown_entries(doc: Document, ctx: Ctx, ws: Seq<int>)
    ensures
        forall|k: int| #![trigger unknown_entries(doc, ctx, ws)[k]]
            0 <= k < unknown_entries(doc, ctx, ws).len() ==> {
                let e = unknown_entries(doc, ctx, ws)[k];
                &&& ws.contains(e.0)
                &&& crate::rules::dictionary::ctx_verdict(doc, ctx, e.0) == Some(
                    crate::rules::dictionary::VerdictSpec::Unknown { word: e.1, base: e.2, used: e.3 },
                )
            },
        forall|j: int| #![trigger ws[j]]
            0 <= j < ws.len() ==> match crate::rules::dictionary::ctx_verdict(doc, ctx, ws[j]) {
                Some(crate::rules::dictionary::VerdictSpec::Unknown { word, base, used }) => unknown_entries(doc, ctx, ws).contains(
                    (ws[j], word, base, used),
                ),
                _ => true,
            },
    decreases ws.len(),
{
    if ws.len() > 0 {
        let prev = ws.drop_last();
        lemma_unknown_entries(doc, ctx, prev);
        let all = unknown_entries(doc, ctx, ws);
        let before = unknown_entries(doc, ctx, prev);
        assert forall|k: int| #![trigger all[k]] 0 <= k < all.len() implies {
            let e = all[k];
            &&& ws.contains(e.0)
            &&& crate::rules::dictionary::ctx_verdict(doc, ctx, e.0) == Some(
                crate::rules::dictionary::VerdictSpec::Unknown { word: e.1, base: e.2, used: e.3 },
            )
        } by {
            if k < before.len() {
                assert(all[k] == before[k]);
                let e = before[k];
                assert(prev.contains(e.0));
                let m = choose|m: int| 0 <= m < prev.len() && prev[m] == e.0;
                assert(ws[m] == e.0);
            } else {
                assert(ws[ws.len() - 1] == ws.last());
            }
        }
        assert forall|j: int| #![trigger ws[j]] 0 <= j < ws.len() implies match crate::rules::dictionary::ctx_verdict(doc, ctx, ws[j]) {
            Some(crate::rules::dictionary::VerdictSpec::Unknown { word, base, used }) => all.contains((ws[j], word, base, used)),
            _ => true,
        } by {
            if j < prev.len() {
                assert(prev[j] == ws[j]);
                match crate::rules::dictionary::ctx_verdict(doc, ctx, ws[j]) {
                    Some(crate::rules::dictionary::VerdictSpec::Unknown { word, base, used }) => {
                        let x = (ws[j], word, base, used);
                        assert(before.contains(x));
                        let m = choose|m: int| 0 <= m < before.len() && before[m] == x;
                        assert(all[m] == x);
                    },
                    _ => {},
                }
            } else {
                match crate::rules::dictionary::ctx_verdict(doc, ctx, ws[j]) {
                    Some(crate::rules::dictionary::VerdictSpec::Unknown { word, base, used }) => {
                        assert(all[before.len() as int] == (ws[j], word, base, used));
                    },
                    _ => {},
                }
            }
        }
    }
}

/// Whether the glossary `g` declares each out-of-vocabulary entry of `found` where a skeleton
/// lists it: a word found as a verb among the verbs, any other among the names.
pub open spec fn declares_found(g: (Terms, Terms), found: Seq<(int, Seq<char>, Seq<char>, Upos)>) -> bool {
    forall|k: int|
        0 <= k < found.len() ==> if (#[trigger] found[k]).3 == Upos::VERB {
            g.1.contains_key(found[k].2)
        } else {
            g.0.contains_key(found[k].2)
        }
}

/// The bootstrap loop closes: a glossary that keeps what the first one declared and declares each
/// out-of-vocabulary word the first run found, where a skeleton lists it, leaves no word out of
/// vocabulary.
pub proof fn declared_words_are_not_unknown(doc: Document, small: Ctx, big: Ctx)
    requires
        small.wordset == big.wordset,
        declares_more(small.glossary, big.glossary),
        declares_found(big.glossary@, unknown_entries(doc, small, prose_words(doc))),
    ensures
        unknown_entries(doc, big, prose_words(doc)).len() == 0,
        forall|j: int| 0 <= j < prose_words(doc).len() ==> !(crate::rules::dictionary::ctx_verdict(
            doc,
            big,
            #[trigger] prose_words(doc)[j],
        ) matches Some(crate::rules::dictionary::VerdictSpec::Unknown { .. })),
{
    let ws = prose_words(doc);
    let eb = unknown_entries(doc, big, ws);
    let es = unknown_entries(doc, small, ws);
    lemma_unknown_entries(doc, big, ws);
    lemma_unknown_entries(doc, small, ws);
    assert forall|j: int| 0 <= j < ws.len() implies !(crate::rules::dictionary::ctx_verdict(doc, big, #[trigger] ws[j]) matches Some(
        crate::rules::dictionary::VerdictSpec::Unknown { .. },
    )) by {
        let i = ws[j];
        lemma_verdict_monotone(doc, small, big, i);
        match crate::rules::dictionary::ctx_verdict(doc, big, i) {
            Some(crate::rules::dictionary::VerdictSpec::Unknown { word, base, used }) => {
                assert(es.contains((i, word, base, used)));
                let m = choose|m: int| 0 <= m < es.len() && es[m] == (i, word, base, used);
                assert(es[m] == (i, word, base, used));
                let g = big.glossary@;
                let kind = doc.tokens@[i].kind;
                let lemma = crate::rules::dictionary::lemma_of(kind);
                assert(!crate::glossary::glossary_allows(g, doc.lower(i), used));
                assert(!(lemma is Some && crate::glossary::glossary_allows(g, lemma->0, used)));
                assert(base == if crate::rules::dictionary::inflected(kind) { lemma->0 } else { doc.lower(i) });
                assert(crate::wordset::is_content_pos(used));
            },
            _ => {},
        }
    }
    if eb.len() > 0 {
        let e = eb[0];
        let j = choose|j: int| 0 <= j < ws.len() && ws[j] == e.0;
        assert(ws[j] == e.0);
    }
}

proof fn lemma_collect_without_unknown(doc: Document, ctx: Ctx, ws: Seq<int>)
    requires
        forall|j: int| 0 <= j < ws.len() ==> !(crate::rules::dictionary::ctx_verdict(doc, ctx, #[trigger] ws[j]) matches Some(
            crate::rules::dictionary::VerdictSpec::Unknown { .. },
        )),
    ensures
        collect(doc, ctx, ws, 2).len() == 0,
    decreases ws.len(),
{
    if ws.len() > 0 {
        assert forall|j: int| 0 <= j < ws.drop_last().len() implies !(crate::rules::dictionary::ctx_verdict(
            doc,
            ctx,
            #[trigger] ws.drop_last()[j],
        ) matches Some(crate::rules::dictionary::VerdictSpec::Unknown { .. })) by {
            assert(ws.drop_last()[j] == ws[j]);
        }
        lemma_collect_without_unknown(doc, ctx, ws.drop_last());
        assert(ws[ws.len() - 1] == ws.last());
        assert(unknown_lint(doc, ctx, ws.last()) is None);
    }
}

proof fn lemma_occurrences_positive(u: Seq<crate::skeleton::Found>, verbs: bool, k: int)
    requires
        0 <= k < u.len(),
        (u[k].1 == Upos::VERB) == verbs,
    ensures
        crate::skeleton::occurrences(u, verbs, u[k].0) > 0,
    decreases u.len(),
{
    if k < u.len() - 1 {
        assert(u.drop_last()[k] == u[k]);
        lemma_occurrences_positive(u.drop_last(), verbs, k);
    }
}

proof fn lemma_extend_contains(m: Terms, es: Seq<crate::glossary::EntrySpec>, j: int)
    requires
        0 <= j < es.len(),
    ensures
        crate::glossary::extend(m, es).contains_key(es[j].0),
    decreases es.len(),
{
    if j < es.len() - 1 {
        assert(es.drop_last()[j] == es[j]);
        lemma_extend_contains(m, es.drop_last(), j);
    }
}

/// What a first run finds for the skeleton: each out-of-vocabulary word (the form to declare) and
/// the part of speech it was used in.
pub open spec fn found_of(doc: Document, ctx: Ctx) -> Seq<crate::skeleton::Found> {
    unknown_entries(doc, ctx, prose_words(doc)).map_values(|e: (int, Seq<char>, Seq<char>, Upos)| (e.2, e.3))
}

/// The glossary read back from a skeleton declares each word the skeleton was written from,
/// where the skeleton lists it, for words that lowercase to themselves.
pub proof fn skeleton_declares_what_was_found(
    doc: Document,
    ctx: Ctx,
    rn: Seq<crate::skeleton::Ranked>,
    rv: Seq<crate::skeleton::Ranked>,
    codes: Set<Seq<char>>,
)
    requires
        crate::skeleton::is_ranking(found_of(doc, ctx), false, rn),
        crate::skeleton::is_ranking(found_of(doc, ctx), true, rv),
        crate::readback::all_plain(rn),
        crate::readback::all_plain(rv),
        forall|k: int| 0 <= k < found_of(doc, ctx).len() ==> crate::text::lowercase((#[trigger] found_of(doc, ctx)[k]).0) == found_of(doc, ctx)[k].0,
    ensures
        crate::glossary::parse_glossary(crate::skeleton::skeleton_text(rn, rv, codes)) is Ok,
        declares_found(crate::glossary::parse_glossary(crate::skeleton::skeleton_text(rn, rv, codes))->Ok_0, unknown_entries(doc, ctx, prose_words(doc))),
{
    crate::readback::skeleton_reads_back(rn, rv, codes);
    let u = found_of(doc, ctx);
    let es = unknown_entries(doc, ctx, prose_words(doc));
    let g = crate::glossary::parse_glossary(crate::skeleton::skeleton_text(rn, rv, codes))->Ok_0;
    assert forall|k: int| 0 <= k < es.len() implies if (#[trigger] es[k]).3 == Upos::VERB {
        g.1.contains_key(es[k].2)
    } else {
        g.0.contains_key(es[k].2)
    } by {
        assert(u[k] == (es[k].2, es[k].3));
        assert(crate::text::lowercase(u[k].0) == u[k].0);
        let verbs = es[k].3 == Upos::VERB;
        lemma_occurrences_positive(u, verbs, k);
        let r = if verbs { rv } else { rn };
        assert(crate::skeleton::occurrences(u, verbs, u[k].0) > 0);
        let j = choose|j: int| 0 <= j < r.len() && #[trigger] r[j].0 == u[k].0;
        let d = crate::readback::declared(r);
        assert(d[j].0 == crate::text::lowercase(r[j].0));
        lemma_extend_contains(Terms::empty(), d, j);
    }
}

/// The bootstrap loop closes: after a first run with an empty glossary, the glossary read back from
/// the skeleton of what it found leaves no `unknown-word` finding. It holds for words that a Nix
/// string holds as they are and that lowercase to themselves, since every glossary entry is
/// lowercased on reading.
pub proof fn bootstrap_loop_closes(
    doc: Document,
    first: Ctx,
    second: Ctx,
    rn: Seq<crate::skeleton::Ranked>,
    rv: Seq<crate::skeleton::Ranked>,
    codes: Set<Seq<char>>,
)
    requires
        first.wordset == second.wordset,
        first.glossary@.0 == Terms::empty(),
        first.glossary@.1 == Terms::empty(),
        crate::skeleton::is_ranking(found_of(doc, first), false, rn),
        crate::skeleton::is_ranking(found_of(doc, first), true, rv),
        crate::readback::all_plain(rn),
        crate::readback::all_plain(rv),
        forall|k: int| 0 <= k < found_of(doc, first).len() ==> crate::text::lowercase((#[trigger] found_of(doc, first)[k]).0) == found_of(doc, first)[k].0,
        crate::glossary::parse_glossary(crate::skeleton::skeleton_text(rn, rv, codes)) == Ok::<(Terms, Terms), crate::glossary::Failure>(second.glossary@),
    ensures
        unknown_entries(doc, second, prose_words(doc)).len() == 0,
        rule_lints(doc, second, 2).len() == 0,
        forall|y: FindingSpec| findings_of(doc, second).contains(y) ==> y.0 != rule_name(2),
{
    skeleton_declares_what_was_found(doc, first, rn, rv, codes);
    assert(declares_more(first.glossary, second.glossary)) by {
        assert(first.glossary@.0.dom() =~= Set::<Seq<char>>::empty());
        assert(first.glossary@.1.dom() =~= Set::<Seq<char>>::empty());
    }
    declared_words_are_not_unknown(doc, first, second);
    lemma_collect_without_unknown(doc, second, prose_words(doc));
    assert forall|y: FindingSpec| findings_of(doc, second).contains(y) implies y.0 != rule_name(2) by {
        findings_are_the_enabled_rules_lints(doc, second, y);
        if y.0 == rule_name(2) {
            let r = choose|r: int|
                0 <= r < RULE_COUNT && crate::ctx::enabled(second.config.disable@, rule_name(r)) && y.0 == rule_name(r)
                    && #[trigger] rule_lints(doc, second, r).contains(y.1);
            if r != 2 {
                lemma_rule_names_differ(r, 2);
            }
            assert(r == 2);
            assert(rule_lints(doc, second, 2).len() == 0);
        }
    }
}

proof fn lemma_key_less_transitive(a: FindingSpec, b: FindingSpec, c: FindingSpec)
    requires
        crate::key_less(a, b),
        crate::key_less(b, c),
    ensures
        crate::key_less(a, c),
{
    if a.1.span.start == b.1.span.start && b.1.span.start == c.1.span.start && a.1.span.end == b.1.span.end
        && b.1.span.end == c.1.span.end {
        crate::text::lemma_seq_less_transitive(a.0, b.0, c.0);
    }
}

proof fn lemma_key_less_irreflexive(a: FindingSpec)
    ensures
        !crate::key_less(a, a),
{
    crate::text::lemma_seq_less_irreflexive(a.0);
}

/// No finding comes after one it sorts before.
pub open spec fn in_key_order(s: Seq<FindingSpec>) -> bool {
    forall|i: int, j: int| 0 <= i < j < s.len() ==> !crate::key_less(#[trigger] s[j], #[trigger] s[i])
}

proof fn lemma_sorted_by_key_in_order(xs: Seq<FindingSpec>)
    ensures
        in_key_order(sorted_by_key(xs)),
    decreases xs.len(),
{
    if xs.len() > 0 {
        let s = sorted_by_key(xs.drop_last());
        let x = xs.last();
        lemma_sorted_by_key_in_order(xs.drop_last());
        crate::lemma_insert_sorted(s, x);
        let p = crate::first_greater(s, x);
        let r = insert_sorted(s, x);
        s.insert_ensures(p, x);
        assert forall|i: int, j: int| 0 <= i < j < r.len() implies !crate::key_less(#[trigger] r[j], #[trigger] r[i]) by {
            if j < p {
                assert(r[i] == s[i] && r[j] == s[j]);
            } else if j == p {
                assert(r[i] == s[i]);
            } else if i < p {
                assert(r[i] == s[i] && r[j] == s[j - 1]);
            } else if i == p {
                assert(r[j] == s[j - 1]);
                assert(crate::key_less(x, s[p]));
                if crate::key_less(s[j - 1], x) {
                    lemma_key_less_transitive(s[j - 1], x, s[p]);
                    if j - 1 == p {
                        lemma_key_less_irreflexive(s[p]);
                    }
                }
            } else {
                assert(r[i] == s[i - 1] && r[j] == s[j - 1]);
            }
        }
    }
}

/// The bootstrap loop closes for ordinary words: where every word the skeleton lists is ASCII
/// with no capital letter (and a Nix string holds it as it is), the glossary read back from the
/// skeleton of a first run's findings leaves no `unknown-word` finding.
pub proof fn bootstrap_loop_closes_for_lowercase_ascii_words(
    doc: Document,
    first: Ctx,
    second: Ctx,
    rn: Seq<crate::skeleton::Ranked>,
    rv: Seq<crate::skeleton::Ranked>,
    codes: Set<Seq<char>>,
)
    requires
        first.wordset == second.wordset,
        first.glossary@.0 == Terms::empty(),
        first.glossary@.1 == Terms::empty(),
        crate::skeleton::is_ranking(found_of(doc, first), false, rn),
        crate::skeleton::is_ranking(found_of(doc, first), true, rv),
        crate::readback::all_plain(rn),
        crate::readback::all_plain(rv),
        forall|k: int| 0 <= k < found_of(doc, first).len() ==> crate::text::is_lowercase_ascii((#[trigger] found_of(doc, first)[k]).0),
        crate::glossary::parse_glossary(crate::skeleton::skeleton_text(rn, rv, codes)) == Ok::<(Terms, Terms), crate::glossary::Failure>(second.glossary@),
    ensures
        unknown_entries(doc, second, prose_words(doc)).len() == 0,
        rule_lints(doc, second, 2).len() == 0,
        forall|y: FindingSpec| findings_of(doc, second).contains(y) ==> y.0 != rule_name(2),
{
    let found = found_of(doc, first);
    assert forall|k: int| 0 <= k < found.len() implies crate::text::lowercase((#[trigger] found[k]).0) == found[k].0 by {
        crate::text::lemma_ascii_lowercase(found[k].0);
    }
    bootstrap_loop_closes(doc, first, second, rn, rv, codes);
}

/// Findings come in the order of their spans: by start, then by end, then by rule name.
pub proof fn findings_come_in_source_order(doc: Document, ctx: Ctx)
    ensures
        in_key_order(findings_of(doc, ctx)),
{
    lemma_sorted_by_key_in_order(unsorted(doc, ctx, RULE_COUNT as int));
}

/// The dictionary rules honour immunity: a word the cascade made immune (half of a split
/// compound, a participle `passive-voice` owns, a contraction) gets no verdict.
pub proof fn immune_words_are_not_judged(doc: Document, ctx: Ctx, i: int)
    requires
        crate::tags::tags_of(doc).1[i],
    ensures
        crate::rules::dictionary::ctx_verdict(doc, ctx, i) is None,
{
}

/// A row in another part of speech is not an absent row, and only a form the lemmatizer can
/// reduce is reported: a word is out of vocabulary only when it is not immune, has a content part
/// of speech, is not declared in it, and neither it nor its lemma has a row; an inflection is
/// reported by its lemma, anything else by itself.
pub proof fn unknown_words_have_no_row(doc: Document, ctx: Ctx, i: int)
    requires
        crate::rules::dictionary::ctx_verdict(doc, ctx, i) is Some,
        crate::rules::dictionary::ctx_verdict(doc, ctx, i)->0 is Unknown,
    ensures
        ({
            let v = crate::rules::dictionary::ctx_verdict(doc, ctx, i)->0;
            let st = crate::tags::tags_of(doc);
            let kind = doc.tokens@[i].kind;
            let lemma = crate::rules::dictionary::lemma_of(kind);
            let rows = ctx.wordset.rows();
            &&& !st.1[i]
            &&& st.0[i] == Some(v->Unknown_used)
            &&& crate::wordset::is_content_pos(v->Unknown_used)
            &&& v->Unknown_word == doc.lower(i)
            &&& !crate::glossary::glossary_allows(ctx.glossary@, doc.lower(i), v->Unknown_used)
            &&& !rows.contains_key(doc.lower(i))
            &&& (lemma matches Some(l) ==> !rows.contains_key(l))
            &&& (crate::rules::dictionary::inflected(kind) ==> lemma is Some && v->Unknown_base == lemma->0)
            &&& (!crate::rules::dictionary::inflected(kind) ==> v->Unknown_base == doc.lower(i))
        }),
{
}

/// No lint starts inside a heading.
pub open spec fn outside_headings(doc: Document, ls: Seq<LintSpec>) -> bool {
    forall|j: int| 0 <= j < ls.len() ==> !crate::tags::in_heading(doc.headings@, (#[trigger] ls[j]).span)
}

pub open spec fn all_prose(doc: Document, ws: Seq<int>) -> bool {
    forall|j: int| 0 <= j < ws.len() ==> is_prose(doc, #[trigger] ws[j])
}

proof fn lemma_push_outside(doc: Document, ls: Seq<LintSpec>, l: LintSpec)
    requires
        outside_headings(doc, ls),
        !crate::tags::in_heading(doc.headings@, l.span),
    ensures
        outside_headings(doc, ls.push(l)),
{
    assert forall|j: int| 0 <= j < ls.push(l).len() implies !crate::tags::in_heading(doc.headings@, (#[trigger] ls.push(l)[j]).span) by {
        if j < ls.len() {
            assert(ls.push(l)[j] == ls[j]);
        }
    }
}

proof fn lemma_drop_last_prose(doc: Document, ws: Seq<int>)
    requires
        all_prose(doc, ws),
        ws.len() > 0,
    ensures
        all_prose(doc, ws.drop_last()),
        is_prose(doc, ws.last()),
{
    assert forall|j: int| 0 <= j < ws.drop_last().len() implies is_prose(doc, #[trigger] ws.drop_last()[j]) by {
        assert(ws.drop_last()[j] == ws[j]);
    }
}

proof fn lemma_collect_outside(doc: Document, ctx: Ctx, ws: Seq<int>, which: nat)
    requires
        all_prose(doc, ws),
    ensures
        outside_headings(doc, collect(doc, ctx, ws, which)),
    decreases ws.len(),
{
    if ws.len() > 0 {
        lemma_drop_last_prose(doc, ws);
        lemma_collect_outside(doc, ctx, ws.drop_last(), which);
        let i = ws.last();
        let one = if which == 0 {
            unapproved_lint(doc, ctx, i)
        } else if which == 1 {
            wrong_pos_lint(doc, ctx, i)
        } else {
            unknown_lint(doc, ctx, i)
        };
        if one is Some {
            lemma_push_outside(doc, collect(doc, ctx, ws.drop_last(), which), one->0);
        }
    }
}

proof fn lemma_ing_outside(doc: Document, ws: Seq<int>)
    requires
        all_prose(doc, ws),
    ensures
        outside_headings(doc, ing_from(doc, ws)),
    decreases ws.len(),
{
    if ws.len() > 0 {
        lemma_drop_last_prose(doc, ws);
        lemma_ing_outside(doc, ws.drop_last());
        if ing_from(doc, ws) != ing_from(doc, ws.drop_last()) {
            lemma_push_outside(doc, ing_from(doc, ws.drop_last()), ing_from(doc, ws).last());
            assert(ing_from(doc, ws) == ing_from(doc, ws.drop_last()).push(ing_from(doc, ws).last()));
        }
    }
}

proof fn lemma_contractions_outside(doc: Document, ws: Seq<int>)
    requires
        all_prose(doc, ws),
    ensures
        outside_headings(doc, contractions_from(doc, ws)),
    decreases ws.len(),
{
    if ws.len() > 0 {
        lemma_drop_last_prose(doc, ws);
        lemma_contractions_outside(doc, ws.drop_last());
        if contractions_from(doc, ws) != contractions_from(doc, ws.drop_last()) {
            lemma_push_outside(doc, contractions_from(doc, ws.drop_last()), contractions_from(doc, ws).last());
            assert(contractions_from(doc, ws) == contractions_from(doc, ws.drop_last()).push(contractions_from(doc, ws).last()));
        }
    }
}

proof fn lemma_lengths_outside(doc: Document, max: nat, ss: Seq<crate::document::Sentence>)
    ensures
        outside_headings(doc, lengths_from(doc, max, ss)),
    decreases ss.len(),
{
    if ss.len() > 0 {
        lemma_lengths_outside(doc, max, ss.drop_last());
        match length_lint(doc, max, ss.last()) {
            Some(l) => lemma_push_outside(doc, lengths_from(doc, max, ss.drop_last()), l),
            None => {},
        }
    }
}

pub open spec fn run_outside(doc: Document, run: Seq<Span>) -> bool {
    forall|a: int| 0 <= a < run.len() ==> !crate::tags::in_heading(doc.headings@, #[trigger] run[a])
}

proof fn lemma_report_outside(doc: Document, run: Seq<Span>, out: Seq<LintSpec>)
    requires
        run_outside(doc, run),
        outside_headings(doc, out),
    ensures
        outside_headings(doc, report(run, out)),
{
    if run.len() > crate::rules::noun_cluster::MAX_NOUNS {
        let l = report(run, out).last();
        assert(!crate::tags::in_heading(doc.headings@, run[0]));
        assert(l.span.start == run[0].start);
        assert(!crate::tags::in_heading(doc.headings@, l.span)) by {
            if crate::tags::in_heading(doc.headings@, l.span) {
                let j = choose|j: int| 0 <= j < doc.headings@.len() && (#[trigger] doc.headings@[j]).holds(l.span.start as int);
                assert(doc.headings@[j].holds(run[0].start as int));
            }
        }
        lemma_push_outside(doc, out, l);
        assert(report(run, out) == out.push(l));
    }
}

proof fn lemma_cluster_upto_outside(doc: Document, n: int)
    requires
        0 <= n <= doc.tokens@.len(),
    ensures
        run_outside(doc, cluster_upto(doc, n).0),
        outside_headings(doc, cluster_upto(doc, n).1),
    decreases n,
{
    if n > 0 {
        lemma_cluster_upto_outside(doc, n - 1);
        let st = cluster_upto(doc, n - 1);
        let t = doc.tokens@[n - 1];
        let next = cluster_step(doc, n - 1, st);
        if next == (st.0.push(t.span), st.1) && next != st {
            assert forall|a: int| 0 <= a < st.0.push(t.span).len() implies !crate::tags::in_heading(
                doc.headings@,
                #[trigger] st.0.push(t.span)[a],
            ) by {
                if a < st.0.len() {
                    assert(st.0.push(t.span)[a] == st.0[a]);
                }
            }
        } else if next != st {
            lemma_report_outside(doc, st.0, st.1);
        }
    }
}

pub open spec fn pairs_from_prose(doc: Document, ps: Seq<(int, int)>) -> bool {
    forall|j: int| 0 <= j < ps.len() ==> is_prose(doc, (#[trigger] ps[j]).0)
}

proof fn lemma_pairs_from_prose(doc: Document, pos: Seq<Option<crate::upos::Upos>>, ws: Seq<int>, n: int, have: bool)
    requires
        all_prose(doc, ws),
        n <= ws.len(),
    ensures
        pairs_from_prose(doc, aux_pairs_upto(doc, pos, ws, n, have)),
    decreases n,
{
    if n > 0 {
        lemma_pairs_from_prose(doc, pos, ws, n - 1, have);
        let prev = aux_pairs_upto(doc, pos, ws, n - 1, have);
        match pair_at(doc, pos, ws, n - 1, have) {
            Some(p) => {
                assert(p.0 == ws[n - 1]);
                assert forall|x: int| 0 <= x < prev.push(p).len() implies is_prose(doc, (#[trigger] prev.push(p)[x]).0) by {
                    if x < prev.len() {
                        assert(prev.push(p)[x] == prev[x]);
                    }
                }
            },
            None => {},
        }
    }
}

proof fn lemma_passive_outside(doc: Document, ps: Seq<(int, int)>)
    requires
        pairs_from_prose(doc, ps),
    ensures
        outside_headings(doc, passive_from(doc, ps)),
        outside_headings(doc, compound_from(doc, ps)),
    decreases ps.len(),
{
    if ps.len() > 0 {
        assert(pairs_from_prose(doc, ps.drop_last())) by {
            assert forall|j: int| 0 <= j < ps.drop_last().len() implies is_prose(doc, (#[trigger] ps.drop_last()[j]).0) by {
                assert(ps.drop_last()[j] == ps[j]);
            }
        }
        lemma_passive_outside(doc, ps.drop_last());
        let p = ps.last();
        assert(is_prose(doc, p.0));
        assert(crate::rules::verb_form::pair_span(doc, p).start == doc.tokens@[p.0].span.start);
        if passive_from(doc, ps) != passive_from(doc, ps.drop_last()) {
            lemma_push_outside(doc, passive_from(doc, ps.drop_last()), passive_from(doc, ps).last());
            assert(passive_from(doc, ps) == passive_from(doc, ps.drop_last()).push(passive_from(doc, ps).last()));
        }
        lemma_push_outside(doc, compound_from(doc, ps.drop_last()), compound_from(doc, ps).last());
        assert(compound_from(doc, ps) == compound_from(doc, ps.drop_last()).push(compound_from(doc, ps).last()));
    }
}

proof fn lemma_rule_outside(doc: Document, ctx: Ctx, r: int)
    ensures
        outside_headings(doc, rule_lints(doc, ctx, r)),
{
    let n = doc.tokens@.len() as int;
    lemma_prose_indices(doc, n);
    let ws = prose_words(doc);
    assert(all_prose(doc, ws));
    if r <= 2 {
        lemma_collect_outside(doc, ctx, ws, r as nat);
    } else if r == 3 {
        lemma_lengths_outside(doc, ctx.config.text_type.spec_max_sentence_words(), doc.sentences@);
    } else if r == 4 {
        lemma_cluster_upto_outside(doc, n);
        lemma_report_outside(doc, cluster_upto(doc, n).0, cluster_upto(doc, n).1);
    } else if r == 5 || r == 6 {
        let pos = crate::tags::tags_of(doc).0;
        lemma_pairs_from_prose(doc, pos, ws, ws.len() as int, r == 6);
        lemma_passive_outside(doc, aux_pairs(doc, r == 6));
    } else if r == 7 {
        lemma_ing_outside(doc, ws);
    } else {
        lemma_contractions_outside(doc, ws);
    }
}

/// Section titles are not sentences: no finding starts inside a heading.
pub proof fn headings_are_not_checked(doc: Document, ctx: Ctx, y: FindingSpec)
    requires
        findings_of(doc, ctx).contains(y),
    ensures
        !crate::tags::in_heading(doc.headings@, y.1.span),
{
    findings_are_the_enabled_rules_lints(doc, ctx, y);
    let r = choose|r: int|
        0 <= r < RULE_COUNT && crate::ctx::enabled(ctx.config.disable@, rule_name(r)) && y.0 == rule_name(r)
            && #[trigger] rule_lints(doc, ctx, r).contains(y.1);
    lemma_rule_outside(doc, ctx, r);
    let ls = rule_lints(doc, ctx, r);
    let x = choose|x: int| 0 <= x < ls.len() && ls[x] == y.1;
    assert(!crate::tags::in_heading(doc.headings@, ls[x].span));
}

/// How many of the findings `fs` a rule reported.
pub open spec fn count_rule(fs: Seq<FindingSpec>, r: Seq<char>) -> nat
    decreases fs.len(),
{
    if fs.len() == 0 {
        0
    } else {
        count_rule(fs.drop_last(), r) + if fs.last().0 == r { 1nat } else { 0nat }
    }
}

proof fn lemma_count_concat(a: Seq<FindingSpec>, b: Seq<FindingSpec>, r: Seq<char>)
    ensures
        count_rule(a + b, r) == count_rule(a, r) + count_rule(b, r),
    decreases b.len(),
{
    if b.len() == 0 {
        assert(a + b =~= a);
    } else {
        assert((a + b).drop_last() =~= a + b.drop_last());
        assert((a + b).last() == b.last());
        lemma_count_concat(a, b.drop_last(), r);
    }
}

proof fn lemma_count_insert(s: Seq<FindingSpec>, p: int, x: FindingSpec, r: Seq<char>)
    requires
        0 <= p <= s.len(),
    ensures
        count_rule(s.insert(p, x), r) == count_rule(s, r) + if x.0 == r { 1nat } else { 0nat },
{
    let a = s.subrange(0, p);
    let b = s.subrange(p, s.len() as int);
    assert(s =~= a + b);
    lemma_count_concat(a, b, r);
    lemma_count_concat(a.push(x), b, r);
    assert(a.push(x).drop_last() =~= a);
    assert(s.insert(p, x) == a.push(x) + b);
}

proof fn lemma_count_sorted(xs: Seq<FindingSpec>, r: Seq<char>)
    ensures
        count_rule(sorted_by_key(xs), r) == count_rule(xs, r),
    decreases xs.len(),
{
    if xs.len() > 0 {
        lemma_count_sorted(xs.drop_last(), r);
        let s = sorted_by_key(xs.drop_last());
        crate::lemma_insert_sorted(s, xs.last());
        lemma_count_insert(s, crate::first_greater(s, xs.last()), xs.last(), r);
    }
}

proof fn lemma_count_tagged(rule: Seq<char>, ls: Seq<LintSpec>, r: Seq<char>)
    ensures
        count_rule(tagged(rule, ls), r) == if rule == r { ls.len() } else { 0 },
    decreases ls.len(),
{
    if ls.len() > 0 {
        assert(tagged(rule, ls).drop_last() =~= tagged(rule, ls.drop_last()));
        lemma_count_tagged(rule, ls.drop_last(), r);
    }
}

proof fn lemma_rule_names_differ(a: int, b: int)
    requires
        0 <= a < RULE_COUNT,
        0 <= b < RULE_COUNT,
        a != b,
    ensures
        rule_name(a) != rule_name(b),
{
    reveal_strlit("unapproved-word");
    reveal_strlit("wrong-pos");
    reveal_strlit("unknown-word");
    reveal_strlit("sentence-length");
    reveal_strlit("noun-cluster");
    reveal_strlit("passive-voice");
    reveal_strlit("compound-tense");
    reveal_strlit("ing-verb");
    reveal_strlit("contraction");
    if rule_name(a)[0] == rule_name(b)[0] {
        assert(rule_name(a)[1] != rule_name(b)[1] || rule_name(a)[2] != rule_name(b)[2]);
    }
}

proof fn lemma_count_unsorted(doc: Document, ctx: Ctx, k: int, r: int)
    requires
        0 <= r < RULE_COUNT,
        k <= RULE_COUNT,
    ensures
        count_rule(unsorted(doc, ctx, k), rule_name(r)) == if r < k && crate::ctx::enabled(ctx.config.disable@, rule_name(r)) {
            rule_lints(doc, ctx, r).len()
        } else {
            0
        },
    decreases k,
{
    if k > 0 {
        lemma_count_unsorted(doc, ctx, k - 1, r);
        if crate::ctx::enabled(ctx.config.disable@, rule_name(k - 1)) {
            lemma_count_concat(unsorted(doc, ctx, k - 1), tagged(rule_name(k - 1), rule_lints(doc, ctx, k - 1)), rule_name(r));
            lemma_count_tagged(rule_name(k - 1), rule_lints(doc, ctx, k - 1), rule_name(r));
            if k - 1 != r {
                lemma_rule_names_differ(k - 1, r);
            }
        }
    }
}

proof fn lemma_unknown_lints_match(doc: Document, ctx: Ctx, ws: Seq<int>)
    ensures
        collect(doc, ctx, ws, 2).len() == unknown_entries(doc, ctx, ws).len(),
    decreases ws.len(),
{
    if ws.len() > 0 {
        lemma_unknown_lints_match(doc, ctx, ws.drop_last());
    }
}

/// One out-of-vocabulary entry per occurrence: `vocabulary` finds exactly as many words as
/// `unknown-word` reports, each used in a content part of speech, and when the rule is on, that
/// many of the findings are `unknown-word` findings.
pub proof fn unknown_words_are_counted_once(doc: Document, ctx: Ctx)
    ensures
        unknown_entries(doc, ctx, prose_words(doc)).len() == rule_lints(doc, ctx, 2).len(),
        forall|k: int|
            0 <= k < unknown_entries(doc, ctx, prose_words(doc)).len() ==> crate::wordset::is_content_pos(
                (#[trigger] unknown_entries(doc, ctx, prose_words(doc))[k]).3,
            ),
        crate::ctx::enabled(ctx.config.disable@, rule_name(2)) ==> count_rule(findings_of(doc, ctx), rule_name(2))
            == unknown_entries(doc, ctx, prose_words(doc)).len(),
{
    let ws = prose_words(doc);
    lemma_unknown_lints_match(doc, ctx, ws);
    lemma_unknown_entries(doc, ctx, ws);
    let es = unknown_entries(doc, ctx, ws);
    assert forall|k: int| 0 <= k < es.len() implies crate::wordset::is_content_pos((#[trigger] es[k]).3) by {
        let e = es[k];
        unknown_words_have_no_row(doc, ctx, e.0);
    }
    lemma_count_sorted(unsorted(doc, ctx, RULE_COUNT as int), rule_name(2));
    lemma_count_unsorted(doc, ctx, RULE_COUNT as int, 2);
}


// ---------------------------------------------------------------------------------------------
// The words found inside code.
// ---------------------------------------------------------------------------------------------

/// The characters of `s` that are neither letters nor digits, in order.
pub open spec fn separators(s: Seq<char>) -> Seq<char>
    decreases s.len(),
{
    if s.len() == 0 {
        Seq::empty()
    } else if crate::text::alphanumeric(s.last()) {
        separators(s.drop_last())
    } else {
        separators(s.drop_last()).push(s.last())
    }
}

/// The pieces `ps` put back together with the separators `cs` between them.
pub open spec fn rejoin(ps: Seq<Seq<char>>, cs: Seq<char>) -> Seq<char>
    decreases cs.len(),
{
    if ps.len() == 0 {
        Seq::empty()
    } else if cs.len() == 0 {
        ps[0]
    } else {
        rejoin(ps.drop_last(), cs.drop_last()) + seq![cs.last()] + ps.last()
    }
}

/// `pieces` cuts text into its maximal runs of letters and digits: the pieces are letters and
/// digits only, the separators between them are neither, one fewer than the pieces, and together
/// they give back the text.
pub proof fn pieces_are_maximal_runs(s: Seq<char>)
    ensures
        crate::pieces(s).len() == separators(s).len() + 1,
        rejoin(crate::pieces(s), separators(s)) == s,
        forall|j: int, m: int|
            0 <= j < crate::pieces(s).len() && 0 <= m < crate::pieces(s)[j].len() ==> crate::text::alphanumeric(
                #[trigger] crate::pieces(s)[j][m],
            ),
        forall|k: int| 0 <= k < separators(s).len() ==> !crate::text::alphanumeric(#[trigger] separators(s)[k]),
    decreases s.len(),
{
    if s.len() == 0 {
        assert(rejoin(crate::pieces(s), separators(s)) =~= s);
    } else {
        let t = s.drop_last();
        let c = s.last();
        pieces_are_maximal_runs(t);
        let p = crate::pieces(t);
        let cs = separators(t);
        let q = crate::pieces(s);
        if crate::text::alphanumeric(c) {
            assert(q == p.update(p.len() - 1, p.last().push(c)));
            if cs.len() == 0 {
                assert(rejoin(p, cs) == p[0]);
                assert(q[0] =~= t.push(c));
                assert(s =~= t.push(c));
            } else {
                assert(q.drop_last() =~= p.drop_last());
                assert(rejoin(q, cs) == rejoin(p.drop_last(), cs.drop_last()) + seq![cs.last()] + p.last().push(c));
                assert(rejoin(q, cs) =~= rejoin(p, cs).push(c));
                assert(s =~= t.push(c));
            }
            assert forall|j: int, m: int| 0 <= j < q.len() && 0 <= m < q[j].len() implies crate::text::alphanumeric(#[trigger] q[j][m]) by {
                if j < p.len() - 1 {
                    assert(q[j] == p[j]);
                } else if m < p.last().len() {
                    assert(q[j][m] == p[j][m]);
                }
            }
        } else {
            assert(q == p.push(Seq::<char>::empty()));
            let ds = separators(s);
            assert(ds == cs.push(c));
            assert(q.drop_last() =~= p);
            assert(ds.drop_last() =~= cs);
            assert(rejoin(q, ds) =~= rejoin(p, cs) + seq![c] + Seq::<char>::empty());
            assert(s =~= t + seq![c]);
            assert forall|j: int, m: int| 0 <= j < q.len() && 0 <= m < q[j].len() implies crate::text::alphanumeric(#[trigger] q[j][m]) by {
                assert(q[j] == p[j]);
            }
            assert forall|k: int| 0 <= k < ds.len() implies !crate::text::alphanumeric(#[trigger] ds[k]) by {
                if k < cs.len() {
                    assert(ds[k] == cs[k]);
                }
            }
        }
    }
}

proof fn lemma_kept_contains(ps: Seq<Seq<char>>, w: Seq<char>)
    requires
        crate::kept(ps).contains(w),
    ensures
        w.len() > 0,
        exists|j: int| 0 <= j < ps.len() && w == crate::text::lowercase(#[trigger] ps[j]),
    decreases ps.len(),
{
    let prev = ps.drop_last();
    let k = crate::kept(ps);
    let j = choose|j: int| 0 <= j < k.len() && k[j] == w;
    if crate::text::lowercase(ps.last()).len() > 0 && j == k.len() - 1 {
        assert(ps[ps.len() - 1] == ps.last());
    } else {
        if crate::text::lowercase(ps.last()).len() > 0 {
            assert(crate::kept(prev)[j] == w);
        }
        assert(crate::kept(prev).contains(w));
        lemma_kept_contains(prev, w);
        let i = choose|i: int| 0 <= i < prev.len() && w == crate::text::lowercase(#[trigger] prev[i]);
        assert(ps[i] == prev[i]);
    }
}

/// Each word `vocabulary` reports as found in code is a word: not empty, and the lowercasing of
/// one of the maximal runs of letters and digits (`pieces_are_maximal_runs`) of a code token.
pub proof fn code_words_are_runs_of_code(doc: Document, n: int, w: Seq<char>)
    requires
        0 <= n <= doc.tokens@.len(),
        crate::code_words_upto(doc, n).contains(w),
    ensures
        w.len() > 0,
        exists|i: int, j: int|
            0 <= i < n && doc.tokens@[i].kind is Unlintable && 0 <= j < crate::pieces(doc.text(i)).len() && w
                == crate::text::lowercase(#[trigger] crate::pieces(doc.text(i))[j]),
    decreases n,
{
    let prev = crate::code_words_upto(doc, n - 1);
    if doc.tokens@[n - 1].kind is Unlintable {
        let more = crate::kept(crate::pieces(doc.text(n - 1)));
        let all = crate::code_words_upto(doc, n);
        assert(all == prev + more);
        let k = choose|k: int| 0 <= k < all.len() && all[k] == w;
        if k < prev.len() {
            assert(prev[k] == w);
            code_words_are_runs_of_code(doc, n - 1, w);
        } else {
            assert(more[k - prev.len()] == w);
            lemma_kept_contains(crate::pieces(doc.text(n - 1)), w);
        }
    } else {
        code_words_are_runs_of_code(doc, n - 1, w);
    }
}


// ---------------------------------------------------------------------------------------------
// What each style rule reports, stated over the words of the document.
// ---------------------------------------------------------------------------------------------

/// Every prose word is among the prose words, at some position.
proof fn lemma_prose_position(doc: Document, n: int, x: int) -> (a: int)
    requires
        0 <= x < n,
        is_prose(doc, x),
    ensures
        0 <= a < prose_indices(doc, n).len(),
        prose_indices(doc, n)[a] == x,
    decreases n,
{
    if x == n - 1 {
        (prose_indices(doc, n).len() - 1) as int
    } else {
        let a = lemma_prose_position(doc, n - 1, x);
        if is_prose(doc, n - 1) {
            assert(prose_indices(doc, n)[a] == prose_indices(doc, n - 1)[a]);
        }
        a
    }
}

/// A rule's finding reaches `check` when the rule is on.
proof fn lemma_reaches_check(doc: Document, ctx: Ctx, r: int, l: LintSpec)
    requires
        0 <= r < RULE_COUNT,
        crate::ctx::enabled(ctx.config.disable@, rule_name(r)),
        rule_lints(doc, ctx, r).contains(l),
    ensures
        findings_of(doc, ctx).contains((rule_name(r), l)),
{
    let y = (rule_name(r), l);
    assert(y.1 == l && y.0 == rule_name(r));
    assert(exists|q: int|
        0 <= q < RULE_COUNT && crate::ctx::enabled(ctx.config.disable@, rule_name(q)) && y.0 == rule_name(q)
            && #[trigger] rule_lints(doc, ctx, q).contains(y.1));
    findings_are_the_enabled_rules_lints(doc, ctx, y);
}

proof fn lemma_first_apostrophe(w: Seq<char>, k: int, j: int)
    requires
        0 <= k <= j < w.len(),
        w[j] == '\'' || w[j] == '\u{2019}',
        forall|m: int| k <= m < j ==> #[trigger] w[m] != '\'' && w[m] != '\u{2019}',
    ensures
        crate::rules::contraction::first_apostrophe(w, k) == j,
    decreases j - k,
{
    if k < j {
        lemma_first_apostrophe(w, k + 1, j);
    }
}

proof fn lemma_contractions_contain(doc: Document, ws: Seq<int>, a: int)
    requires
        0 <= a < ws.len(),
        crate::rules::contraction::is_contracted(doc.text(ws[a])),
    ensures
        contractions_from(doc, ws).contains(
            crate::lint::plain(
                doc.tokens@[ws[a]].span,
                crate::lint::LintKind::Style,
                crate::rules::contraction::contraction_message(doc.text(ws[a])),
            ),
        ),
    decreases ws.len(),
{
    let out = contractions_from(doc, ws);
    if a == ws.len() - 1 {
        assert(out.last() == crate::lint::plain(
            doc.tokens@[ws[a]].span,
            crate::lint::LintKind::Style,
            crate::rules::contraction::contraction_message(doc.text(ws[a])),
        ));
    } else {
        let prev = ws.drop_last();
        assert(prev[a] == ws[a]);
        lemma_contractions_contain(doc, prev, a);
        let p = contractions_from(doc, prev);
        let l = choose|m: int| 0 <= m < p.len() && p[m] == crate::lint::plain(
            doc.tokens@[ws[a]].span,
            crate::lint::LintKind::Style,
            crate::rules::contraction::contraction_message(doc.text(ws[a])),
        );
        assert(out[l] == p[l]);
    }
}

/// A contraction is reported: a prose word that is a contraction as `contraction_at` says (what
/// follows its first apostrophe, `'` or `’`, lowercased, is `t`, `re`, `ve`, `ll`, `d` or `m`, or
/// `s` after a pronoun) gets a `contraction` finding over its span, which names the word; with
/// the rule on, `check` reports it.
pub proof fn contractions_are_reported(doc: Document, ctx: Ctx, i: int, j: int)
    requires
        0 <= i < doc.tokens@.len(),
        is_prose(doc, i),
        contraction_at(doc, i, j),
    ensures
        ({
            let l = LintSpec {
                span: doc.tokens@[i].span,
                kind: crate::lint::LintKind::Style,
                message: "`"@ + doc.text(i) + "` is a contraction. ASD-STE100 wants the words written out in full."@,
                suggestions: Seq::empty(),
            };
            &&& rule_lints(doc, ctx, 8).contains(l)
            &&& crate::ctx::enabled(ctx.config.disable@, "contraction"@) ==> findings_of(doc, ctx).contains(("contraction"@, l))
        }),
{
    let w = doc.text(i);
    lemma_first_apostrophe(w, 0, j);
    assert(crate::rules::contraction::is_contracted(w));
    let ws = prose_words(doc);
    let a = lemma_prose_position(doc, doc.tokens@.len() as int, i);
    lemma_contractions_contain(doc, ws, a);
    let l = crate::lint::plain(doc.tokens@[i].span, crate::lint::LintKind::Style, crate::rules::contraction::contraction_message(w));
    if crate::ctx::enabled(ctx.config.disable@, "contraction"@) {
        lemma_reaches_check(doc, ctx, 8, l);
    }
}


proof fn lemma_skip_to(doc: Document, ws: Seq<int>, j: int, b: int)
    requires
        0 <= j <= b < ws.len(),
        forall|m: int| j <= m < b ==> crate::rules::verb_form::is_negation(doc.lower(#[trigger] ws[m])),
        !crate::rules::verb_form::is_negation(doc.lower(ws[b])),
    ensures
        skip_negation(doc, ws, j) == b,
    decreases b - j,
{
    if j < b {
        lemma_skip_to(doc, ws, j + 1, b);
    }
}

proof fn lemma_pairs_contain(doc: Document, pos: Seq<Option<Upos>>, ws: Seq<int>, n: int, have: bool, k: int)
    requires
        0 <= k < n,
        pair_at(doc, pos, ws, k, have) is Some,
    ensures
        aux_pairs_upto(doc, pos, ws, n, have).contains(pair_at(doc, pos, ws, k, have)->Some_0),
    decreases n,
{
    let out = aux_pairs_upto(doc, pos, ws, n, have);
    if k == n - 1 {
        assert(out.last() == pair_at(doc, pos, ws, k, have)->Some_0);
    } else {
        lemma_pairs_contain(doc, pos, ws, n - 1, have, k);
        let prev = aux_pairs_upto(doc, pos, ws, n - 1, have);
        let m = choose|m: int| 0 <= m < prev.len() && prev[m] == pair_at(doc, pos, ws, k, have)->Some_0;
        assert(out[m] == prev[m]);
    }
}

proof fn lemma_passive_contain(doc: Document, ps: Seq<(int, int)>, c: int)
    requires
        0 <= c < ps.len(),
        !crate::rules::verb_form::is_progressive_kind(doc.tokens@[ps[c].1].kind),
    ensures
        passive_from(doc, ps).contains(
            crate::lint::plain(
                crate::rules::verb_form::pair_span(doc, ps[c]),
                crate::lint::LintKind::Style,
                crate::rules::verb_form::passive_message(doc.text(ps[c].0), doc.text(ps[c].1)),
            ),
        ),
    decreases ps.len(),
{
    let l = crate::lint::plain(
        crate::rules::verb_form::pair_span(doc, ps[c]),
        crate::lint::LintKind::Style,
        crate::rules::verb_form::passive_message(doc.text(ps[c].0), doc.text(ps[c].1)),
    );
    let out = passive_from(doc, ps);
    if c == ps.len() - 1 {
        assert(out.last() == l);
    } else {
        let prev = ps.drop_last();
        assert(prev[c] == ps[c]);
        lemma_passive_contain(doc, prev, c);
        let p = passive_from(doc, prev);
        let m = choose|m: int| 0 <= m < p.len() && p[m] == l;
        assert(out[m] == p[m]);
    }
}

proof fn lemma_compound_contain(doc: Document, ps: Seq<(int, int)>, c: int)
    requires
        0 <= c < ps.len(),
    ensures
        compound_from(doc, ps).contains(
            crate::lint::plain(
                crate::rules::verb_form::pair_span(doc, ps[c]),
                crate::lint::LintKind::Style,
                crate::rules::verb_form::compound_message(doc.text(ps[c].0), doc.text(ps[c].1)),
            ),
        ),
    decreases ps.len(),
{
    let l = crate::lint::plain(
        crate::rules::verb_form::pair_span(doc, ps[c]),
        crate::lint::LintKind::Style,
        crate::rules::verb_form::compound_message(doc.text(ps[c].0), doc.text(ps[c].1)),
    );
    let out = compound_from(doc, ps);
    if c == ps.len() - 1 {
        assert(out.last() == l);
    } else {
        let prev = ps.drop_last();
        assert(prev[c] == ps[c]);
        lemma_compound_contain(doc, prev, c);
        let p = compound_from(doc, prev);
        let m = choose|m: int| 0 <= m < p.len() && p[m] == l;
        assert(out[m] == p[m]);
    }
}

/// The auxiliary at prose word `i` governs the verb at prose word `v`: both are prose words, the
/// auxiliary is tagged AUX, the verb is tagged VERB and is no `not` or `never`, and only `not`
/// and `never` stand between them among the prose words.
pub open spec fn governs(doc: Document, i: int, v: int) -> bool {
    &&& 0 <= i < v < doc.tokens@.len()
    &&& is_prose(doc, i)
    &&& is_prose(doc, v)
    &&& crate::tags::tags_of(doc).0[i] == Some(Upos::AUX)
    &&& crate::tags::tags_of(doc).0[v] == Some(Upos::VERB)
    &&& doc.lower(v) != "not"@ && doc.lower(v) != "never"@
    &&& forall|x: int| i < x < v && #[trigger] is_prose(doc, x) ==> doc.lower(x) == "not"@ || doc.lower(x) == "never"@
}

/// The pair `(i, v)` is among the auxiliary pairs of the document for an auxiliary `i` of the
/// kind asked for.
proof fn lemma_governed_pair(doc: Document, i: int, v: int, have: bool)
    requires
        governs(doc, i, v),
        crate::rules::verb_form::is_auxiliary(doc.lower(i), have),
    ensures
        aux_pairs(doc, have).contains((i, v)),
{
    let n = doc.tokens@.len() as int;
    let ws = prose_words(doc);
    let pos = crate::tags::tags_of(doc).0;
    lemma_prose_indices(doc, n);
    let a = lemma_prose_position(doc, n, i);
    let b = lemma_prose_position(doc, n, v);
    if b <= a {
        if b < a {
            assert(ws[b] < ws[a]);
        }
        assert(false);
    }
    assert forall|m: int| a + 1 <= m < b implies crate::rules::verb_form::is_negation(doc.lower(#[trigger] ws[m])) by {
        assert(ws[a] < ws[m] && ws[m] < ws[b]);
        assert(is_prose(doc, ws[m]));
        assert(doc.lower(ws[m]) == "not"@ || doc.lower(ws[m]) == "never"@);
    }
    lemma_skip_to(doc, ws, a + 1, b);
    assert(pair_at(doc, pos, ws, a, have) == Some((i, v)));
    lemma_pairs_contain(doc, pos, ws, ws.len() as int, have, a);
}

/// The passive voice is reported: a form of `be` (`be`, `am`, `is`, `are`, `was`, `were`,
/// `been`, `being`) tagged AUX that governs a verb which is not an -ing form gets a
/// `passive-voice` finding from the auxiliary to the verb, naming both; with the rule on, `check`
/// reports it.
pub proof fn passives_are_reported(doc: Document, ctx: Ctx, i: int, v: int)
    requires
        governs(doc, i, v),
        ({
            let w = doc.lower(i);
            w == "be"@ || w == "am"@ || w == "is"@ || w == "are"@ || w == "was"@ || w == "were"@ || w == "been"@ || w == "being"@
        }),
        match crate::document::meta_of(doc.tokens@[v].kind) {
            Some(m) => !m.verb_progressive,
            None => true,
        },
    ensures
        ({
            let l = LintSpec {
                span: Span { start: doc.tokens@[i].span.start, end: doc.tokens@[v].span.end },
                kind: crate::lint::LintKind::Style,
                message: "Passive voice (`"@ + doc.text(i) + " "@ + doc.text(v)
                    + "`). ASD-STE100 wants the active voice: name who or what does the action."@,
                suggestions: Seq::empty(),
            };
            &&& rule_lints(doc, ctx, 5).contains(l)
            &&& crate::ctx::enabled(ctx.config.disable@, "passive-voice"@) ==> findings_of(doc, ctx).contains(("passive-voice"@, l))
        }),
{
    lemma_governed_pair(doc, i, v, false);
    let ps = aux_pairs(doc, false);
    let c = choose|c: int| 0 <= c < ps.len() && ps[c] == (i, v);
    lemma_passive_contain(doc, ps, c);
    let l = crate::lint::plain(
        crate::rules::verb_form::pair_span(doc, (i, v)),
        crate::lint::LintKind::Style,
        crate::rules::verb_form::passive_message(doc.text(i), doc.text(v)),
    );
    if crate::ctx::enabled(ctx.config.disable@, "passive-voice"@) {
        lemma_reaches_check(doc, ctx, 5, l);
    }
}

/// A compound tense is reported: `have`, `has` or `had` tagged AUX that governs a verb gets a
/// `compound-tense` finding from the auxiliary to the verb, naming both; with the rule on,
/// `check` reports it.
pub proof fn compound_tenses_are_reported(doc: Document, ctx: Ctx, i: int, v: int)
    requires
        governs(doc, i, v),
        doc.lower(i) == "have"@ || doc.lower(i) == "has"@ || doc.lower(i) == "had"@,
    ensures
        ({
            let l = LintSpec {
                span: Span { start: doc.tokens@[i].span.start, end: doc.tokens@[v].span.end },
                kind: crate::lint::LintKind::Style,
                message: "Compound tense (`"@ + doc.text(i) + " "@ + doc.text(v)
                    + "`). ASD-STE100 permits only the simple present, simple past and simple future."@,
                suggestions: Seq::empty(),
            };
            &&& rule_lints(doc, ctx, 6).contains(l)
            &&& crate::ctx::enabled(ctx.config.disable@, "compound-tense"@) ==> findings_of(doc, ctx).contains(("compound-tense"@, l))
        }),
{
    lemma_governed_pair(doc, i, v, true);
    let ps = aux_pairs(doc, true);
    let c = choose|c: int| 0 <= c < ps.len() && ps[c] == (i, v);
    lemma_compound_contain(doc, ps, c);
    let l = crate::lint::plain(
        crate::rules::verb_form::pair_span(doc, (i, v)),
        crate::lint::LintKind::Style,
        crate::rules::verb_form::compound_message(doc.text(i), doc.text(v)),
    );
    if crate::ctx::enabled(ctx.config.disable@, "compound-tense"@) {
        lemma_reaches_check(doc, ctx, 6, l);
    }
}


proof fn lemma_collect_contain(doc: Document, ctx: Ctx, ws: Seq<int>, a: int)
    requires
        0 <= a < ws.len(),
        unapproved_lint(doc, ctx, ws[a]) is Some,
    ensures
        collect(doc, ctx, ws, 0).contains(unapproved_lint(doc, ctx, ws[a])->Some_0),
    decreases ws.len(),
{
    let l = unapproved_lint(doc, ctx, ws[a])->Some_0;
    let out = collect(doc, ctx, ws, 0);
    if a == ws.len() - 1 {
        assert(out.last() == l);
    } else {
        let prev = ws.drop_last();
        assert(prev[a] == ws[a]);
        lemma_collect_contain(doc, ctx, prev, a);
        let p = collect(doc, ctx, prev, 0);
        let m = choose|m: int| 0 <= m < p.len() && p[m] == l;
        assert(out[m] == p[m]);
    }
}

/// A past tense reads its lemma's row: a prose word the cascade leaves judged and tagged VERB,
/// with the past-form flag, that the glossary does not declare (nor its lemma) and that has no
/// row of its own, is reported by `unapproved-word` when its lemma's row is an unapproved verb
/// row, with that lemma as the row and the row's other alternatives as the suggestions; with
/// the rule on, `check` reports it.
pub proof fn past_forms_of_unapproved_verbs_are_reported(doc: Document, ctx: Ctx, i: int, l: Seq<char>)
    requires
        0 <= i < doc.tokens@.len(),
        is_prose(doc, i),
        !crate::tags::tags_of(doc).1[i],
        crate::tags::tags_of(doc).0[i] == Some(Upos::VERB),
        (crate::document::meta_of(doc.tokens@[i].kind) matches Some(m) && m.verb_past),
        crate::rules::dictionary::lemma_of(doc.tokens@[i].kind) == Some(l),
        !ctx.glossary@.1.contains_key(doc.lower(i)),
        !ctx.glossary@.1.contains_key(l),
        !ctx.wordset.rows().contains_key(doc.lower(i)),
        ctx.wordset.rows().contains_key(l),
        ctx.wordset.rows()[l].pos == Some(Upos::VERB),
        !ctx.wordset.rows()[l].approved,
    ensures
        ({
            let table = ctx.wordset.alternatives_of();
            let alts = crate::rules::dictionary::other_alternatives(
                if table.contains_key(l) { table[l]@ } else { Seq::empty() },
                l,
            );
            let lint = LintSpec {
                span: doc.tokens@[i].span,
                kind: crate::lint::LintKind::WordChoice,
                message: crate::rules::dictionary::unapproved_message(doc.lower(i), l, Upos::VERB, alts),
                suggestions: crate::rules::dictionary::single_words(alts),
            };
            &&& rule_lints(doc, ctx, 0).contains(lint)
            &&& crate::ctx::enabled(ctx.config.disable@, "unapproved-word"@) ==> findings_of(doc, ctx).contains(("unapproved-word"@, lint))
        }),
{
    let ws = prose_words(doc);
    let a = lemma_prose_position(doc, doc.tokens@.len() as int, i);
    assert(crate::rules::dictionary::ctx_verdict(doc, ctx, i) == Some(crate::rules::dictionary::VerdictSpec::Unapproved {
        word: doc.lower(i),
        row: l,
        used: Upos::VERB,
    }));
    lemma_collect_contain(doc, ctx, ws, a);
    let lint = unapproved_lint(doc, ctx, i)->Some_0;
    if crate::ctx::enabled(ctx.config.disable@, "unapproved-word"@) {
        lemma_reaches_check(doc, ctx, 0, lint);
    }
}


/// Token `x` is a noun outside the headings.
pub open spec fn noun_at(doc: Document, x: int) -> bool {
    &&& crate::document::is_word_kind(doc.tokens@[x].kind)
    &&& crate::tags::tags_of(doc).0[x] == Some(Upos::NOUN)
    &&& !crate::tags::in_heading(doc.headings@, doc.tokens@[x].span)
}

/// How many of the tokens `a..=b` are nouns outside the headings.
pub open spec fn nouns_in(doc: Document, a: int, b: int) -> nat
    decreases b - a + 1,
{
    if b < a {
        0
    } else if noun_at(doc, b) {
        nouns_in(doc, a, b - 1) + 1
    } else {
        nouns_in(doc, a, b - 1)
    }
}

/// The tokens `a..=b` are nouns with nothing but whitespace between them: a run that starts and
/// ends on a noun.
pub open spec fn noun_run(doc: Document, a: int, b: int) -> bool {
    &&& 0 <= a <= b < doc.tokens@.len()
    &&& noun_at(doc, a)
    &&& noun_at(doc, b)
    &&& forall|x: int| a <= x <= b ==> crate::document::is_whitespace_kind(doc.tokens@[x].kind) || #[trigger] noun_at(doc, x)
}

/// `y` is the finding for the run `a..=b`: over it, with the number of its nouns.
pub open spec fn reports_run(doc: Document, a: int, b: int, y: LintSpec) -> bool {
    &&& noun_run(doc, a, b)
    &&& nouns_in(doc, a, b) > 3
    &&& y == LintSpec {
        span: Span { start: doc.tokens@[a].span.start, end: doc.tokens@[b].span.end },
        kind: crate::lint::LintKind::Readability,
        message: crate::text::decimal(nouns_in(doc, a, b))
            + " nouns in a row; ASD-STE100 allows at most 3. Break the cluster up with a preposition."@,
        suggestions: Seq::empty(),
    }
}

/// `y` is the finding for some run of nouns.
pub open spec fn found_run(doc: Document, y: LintSpec) -> bool {
    exists|a: int, b: int| reports_run(doc, a, b, y)
}

/// The run being collected after the first `n` tokens: the spans of the nouns of `a..=b`, with
/// only whitespace after `b`.
spec fn run_at(doc: Document, n: int, run: Seq<Span>, a: int, b: int) -> bool {
    &&& noun_run(doc, a, b)
    &&& b < n <= doc.tokens@.len()
    &&& forall|x: int| b < x < n ==> crate::document::is_whitespace_kind(#[trigger] doc.tokens@[x].kind)
    &&& run.len() == nouns_in(doc, a, b)
    &&& run.len() > 0
    &&& run[0] == doc.tokens@[a].span
    &&& run.last() == doc.tokens@[b].span
}

spec fn state_ok(doc: Document, n: int, st: (Seq<Span>, Seq<LintSpec>)) -> bool {
    &&& st.0.len() > 0 ==> exists|a: int, b: int| run_at(doc, n, st.0, a, b)
    &&& forall|k: int| 0 <= k < st.1.len() ==> found_run(doc, #[trigger] st.1[k])
}

proof fn lemma_nouns_in_start(doc: Document, a: int)
    requires
        noun_at(doc, a),
    ensures
        nouns_in(doc, a, a) == 1,
{
    assert(nouns_in(doc, a, a - 1) == 0);
}

proof fn lemma_nouns_in_flat(doc: Document, a: int, b: int, c: int)
    requires
        a <= b <= c,
        forall|x: int| b < x <= c ==> !noun_at(doc, x),
    ensures
        nouns_in(doc, a, c) == nouns_in(doc, a, b),
    decreases c - b,
{
    if c > b {
        lemma_nouns_in_flat(doc, a, b, c - 1);
    }
}

proof fn lemma_report_ok(doc: Document, n: int, st: (Seq<Span>, Seq<LintSpec>))
    requires
        state_ok(doc, n, st),
    ensures
        forall|k: int| 0 <= k < report(st.0, st.1).len() ==> found_run(doc, #[trigger] report(st.0, st.1)[k]),
{
    let out = report(st.0, st.1);
    if st.0.len() > crate::rules::noun_cluster::MAX_NOUNS {
        let (a, b) = choose|a: int, b: int| run_at(doc, n, st.0, a, b);
        assert(out.last() == crate::lint::plain(
            Span { start: st.0[0].start, end: st.0.last().end },
            crate::lint::LintKind::Readability,
            crate::rules::noun_cluster::cluster_message(st.0.len()),
        ));
        assert(reports_run(doc, a, b, out.last()));
        assert forall|k: int| 0 <= k < out.len() implies found_run(doc, #[trigger] out[k]) by {
            if k < st.1.len() {
                assert(out[k] == st.1[k]);
            } else {
                assert(out[k] == out.last());
                assert(reports_run(doc, a, b, out[k]));
            }
        }
    } else {
        assert(out == st.1);
        assert forall|k: int| 0 <= k < out.len() implies found_run(doc, #[trigger] out[k]) by {
            assert(out[k] == st.1[k]);
        }
    }
}

#[verifier::spinoff_prover]
#[verifier::rlimit(40)]
proof fn lemma_runs_upto(doc: Document, n: int)
    requires
        0 <= n <= doc.tokens@.len(),
    ensures
        state_ok(doc, n, cluster_upto(doc, n)),
    decreases n,
{
    if n > 0 {
        lemma_runs_upto(doc, n - 1);
        let i = n - 1;
        let st = cluster_upto(doc, i);
        let t = doc.tokens@[i];
        let next = cluster_upto(doc, n);
        assert(next == cluster_step(doc, i, st));
        if crate::document::is_whitespace_kind(t.kind) {
            if st.0.len() > 0 {
                let (a, b) = choose|a: int, b: int| run_at(doc, i, st.0, a, b);
                assert(run_at(doc, n, st.0, a, b));
            }
        } else if crate::document::is_word_kind(t.kind) && crate::tags::tags_of(doc).0[i] == Some(Upos::NOUN)
            && !crate::tags::in_heading(doc.headings@, t.span) {
            assert(noun_at(doc, i));
            let run = st.0.push(t.span);
            assert(next.0 == run);
            if st.0.len() == 0 {
                lemma_nouns_in_start(doc, i);
                assert(noun_run(doc, i, i));
                assert(run_at(doc, n, run, i, i));
            } else {
                let (a, b) = choose|a: int, b: int| run_at(doc, i, st.0, a, b);
                assert forall|x: int| b < x <= i - 1 implies !noun_at(doc, x) by {
                    assert(crate::document::is_whitespace_kind(doc.tokens@[x].kind));
                }
                lemma_nouns_in_flat(doc, a, b, i - 1);
                assert(nouns_in(doc, a, i) == nouns_in(doc, a, i - 1) + 1);
                assert forall|x: int| a <= x <= i implies crate::document::is_whitespace_kind(doc.tokens@[x].kind) || #[trigger] noun_at(doc, x) by {
                    if x <= b {
                    } else if x < i {
                        assert(crate::document::is_whitespace_kind(doc.tokens@[x].kind));
                    }
                }
                assert(noun_run(doc, a, i));
                assert(run_at(doc, n, run, a, i));
            }
        } else {
            lemma_report_ok(doc, i, st);
        }
    }
}

/// Noun clusters are runs of nouns: every `noun-cluster` finding covers nouns outside the
/// headings with nothing but whitespace between them (a comma, a number or any other token ends
/// a run), from its first noun to its last, more than three of them, and says how many.
pub proof fn noun_clusters_are_runs_of_nouns(doc: Document, ctx: Ctx, y: LintSpec)
    requires
        rule_lints(doc, ctx, 4).contains(y),
    ensures
        exists|a: int, b: int| reports_run(doc, a, b, y),
{
    let n = doc.tokens@.len() as int;
    lemma_runs_upto(doc, n);
    lemma_report_ok(doc, n, cluster_upto(doc, n));
    let out = clusters(doc);
    let k = choose|k: int| 0 <= k < out.len() && out[k] == y;
    assert(found_run(doc, out[k]));
}


proof fn lemma_skip_negation(doc: Document, ws: Seq<int>, j: int)
    requires
        0 <= j <= ws.len(),
    ensures
        j <= skip_negation(doc, ws, j) <= ws.len(),
        forall|m: int| j <= m < skip_negation(doc, ws, j) ==> crate::rules::verb_form::is_negation(doc.lower(#[trigger] ws[m])),
        skip_negation(doc, ws, j) < ws.len() ==> !crate::rules::verb_form::is_negation(doc.lower(ws[skip_negation(doc, ws, j)])),
    decreases ws.len() - j,
{
    if j < ws.len() && crate::rules::verb_form::is_negation(doc.lower(ws[j])) {
        lemma_skip_negation(doc, ws, j + 1);
    }
}

/// A pair the rules find is an auxiliary of the kind asked for governing its verb.
proof fn lemma_pair_governs(doc: Document, k: int, have: bool)
    requires
        0 <= k < prose_words(doc).len(),
        pair_at(doc, crate::tags::tags_of(doc).0, prose_words(doc), k, have) is Some,
    ensures
        ({
            let p = pair_at(doc, crate::tags::tags_of(doc).0, prose_words(doc), k, have)->Some_0;
            governs(doc, p.0, p.1) && crate::rules::verb_form::is_auxiliary(doc.lower(p.0), have)
        }),
{
    let n = doc.tokens@.len() as int;
    let ws = prose_words(doc);
    lemma_prose_indices(doc, n);
    lemma_skip_negation(doc, ws, k + 1);
    let j = skip_negation(doc, ws, k + 1);
    let i = ws[k];
    let v = ws[j];
    assert(i < v);
    assert forall|x: int| i < x < v && #[trigger] is_prose(doc, x) implies doc.lower(x) == "not"@ || doc.lower(x) == "never"@ by {
        let m = lemma_prose_position(doc, n, x);
        if m <= k {
            if m < k {
                assert(ws[m] < ws[k]);
            }
            assert(false);
        }
        if m >= j {
            if m > j {
                assert(ws[j] < ws[m]);
            }
            assert(false);
        }
        assert(crate::rules::verb_form::is_negation(doc.lower(ws[m])));
    }
}

proof fn lemma_pairs_from(doc: Document, pos: Seq<Option<Upos>>, ws: Seq<int>, n: int, have: bool, p: (int, int))
    requires
        aux_pairs_upto(doc, pos, ws, n, have).contains(p),
    ensures
        exists|k: int| 0 <= k < n && #[trigger] pair_at(doc, pos, ws, k, have) == Some(p),
    decreases n,
{
    if n > 0 {
        let out = aux_pairs_upto(doc, pos, ws, n, have);
        let prev = aux_pairs_upto(doc, pos, ws, n - 1, have);
        let m = choose|m: int| 0 <= m < out.len() && out[m] == p;
        if pair_at(doc, pos, ws, n - 1, have) is Some && m == out.len() - 1 {
            assert(pair_at(doc, pos, ws, n - 1, have) == Some(p));
        } else {
            assert(prev[m] == p);
            lemma_pairs_from(doc, pos, ws, n - 1, have, p);
        }
    }
}

proof fn lemma_pair_of_document(doc: Document, have: bool, p: (int, int))
    requires
        aux_pairs(doc, have).contains(p),
    ensures
        governs(doc, p.0, p.1),
        crate::rules::verb_form::is_auxiliary(doc.lower(p.0), have),
{
    let ws = prose_words(doc);
    lemma_pairs_from(doc, crate::tags::tags_of(doc).0, ws, ws.len() as int, have, p);
    let k = choose|k: int| 0 <= k < ws.len() && #[trigger] pair_at(doc, crate::tags::tags_of(doc).0, ws, k, have) == Some(p);
    lemma_pair_governs(doc, k, have);
}

proof fn lemma_passive_from(doc: Document, ps: Seq<(int, int)>, y: LintSpec)
    requires
        passive_from(doc, ps).contains(y),
    ensures
        exists|c: int| 0 <= c < ps.len() && !crate::rules::verb_form::is_progressive_kind(doc.tokens@[(#[trigger] ps[c]).1].kind)
            && y == crate::lint::plain(
                crate::rules::verb_form::pair_span(doc, ps[c]),
                crate::lint::LintKind::Style,
                crate::rules::verb_form::passive_message(doc.text(ps[c].0), doc.text(ps[c].1)),
            ),
    decreases ps.len(),
{
    let out = passive_from(doc, ps);
    let prev = ps.drop_last();
    let m = choose|m: int| 0 <= m < out.len() && out[m] == y;
    let last = ps.len() - 1;
    if !crate::rules::verb_form::is_progressive_kind(doc.tokens@[ps[last].1].kind) && m == out.len() - 1 {
        assert(y == out.last());
        assert(ps[last] == ps.last());
    } else {
        assert(passive_from(doc, prev)[m] == y);
        lemma_passive_from(doc, prev, y);
        let c = choose|c: int| 0 <= c < prev.len() && !crate::rules::verb_form::is_progressive_kind(doc.tokens@[(#[trigger] prev[c]).1].kind)
            && y == crate::lint::plain(
                crate::rules::verb_form::pair_span(doc, prev[c]),
                crate::lint::LintKind::Style,
                crate::rules::verb_form::passive_message(doc.text(prev[c].0), doc.text(prev[c].1)),
            );
        assert(ps[c] == prev[c]);
    }
}

proof fn lemma_compound_from(doc: Document, ps: Seq<(int, int)>, y: LintSpec)
    requires
        compound_from(doc, ps).contains(y),
    ensures
        exists|c: int| 0 <= c < ps.len() && y == crate::lint::plain(
            crate::rules::verb_form::pair_span(doc, #[trigger] ps[c]),
            crate::lint::LintKind::Style,
            crate::rules::verb_form::compound_message(doc.text(ps[c].0), doc.text(ps[c].1)),
        ),
    decreases ps.len(),
{
    let out = compound_from(doc, ps);
    let prev = ps.drop_last();
    let m = choose|m: int| 0 <= m < out.len() && out[m] == y;
    let last = ps.len() - 1;
    if m == out.len() - 1 {
        assert(y == out.last());
        assert(ps[last] == ps.last());
    } else {
        assert(compound_from(doc, prev)[m] == y);
        lemma_compound_from(doc, prev, y);
        let c = choose|c: int| 0 <= c < prev.len() && y == crate::lint::plain(
            crate::rules::verb_form::pair_span(doc, #[trigger] prev[c]),
            crate::lint::LintKind::Style,
            crate::rules::verb_form::compound_message(doc.text(prev[c].0), doc.text(prev[c].1)),
        );
        assert(ps[c] == prev[c]);
    }
}

/// Every `passive-voice` finding is a passive: a form of `be` tagged AUX governing a verb that is
/// not an -ing form, the finding running from the auxiliary to the verb and naming both.
pub proof fn passive_findings_are_passives(doc: Document, ctx: Ctx, y: LintSpec)
    requires
        rule_lints(doc, ctx, 5).contains(y),
    ensures
        exists|i: int, v: int| {
            &&& #[trigger] governs(doc, i, v)
            &&& {
                let w = doc.lower(i);
                w == "be"@ || w == "am"@ || w == "is"@ || w == "are"@ || w == "was"@ || w == "were"@ || w == "been"@ || w == "being"@
            }
            &&& match crate::document::meta_of(doc.tokens@[v].kind) {
                Some(m) => !m.verb_progressive,
                None => true,
            }
            &&& y == LintSpec {
                span: Span { start: doc.tokens@[i].span.start, end: doc.tokens@[v].span.end },
                kind: crate::lint::LintKind::Style,
                message: "Passive voice (`"@ + doc.text(i) + " "@ + doc.text(v)
                    + "`). ASD-STE100 wants the active voice: name who or what does the action."@,
                suggestions: Seq::empty(),
            }
        },
{
    let ps = aux_pairs(doc, false);
    lemma_passive_from(doc, ps, y);
    let c = choose|c: int| 0 <= c < ps.len() && !crate::rules::verb_form::is_progressive_kind(doc.tokens@[(#[trigger] ps[c]).1].kind)
        && y == crate::lint::plain(
            crate::rules::verb_form::pair_span(doc, ps[c]),
            crate::lint::LintKind::Style,
            crate::rules::verb_form::passive_message(doc.text(ps[c].0), doc.text(ps[c].1)),
        );
    lemma_pair_of_document(doc, false, ps[c]);
    assert(governs(doc, ps[c].0, ps[c].1));
}

/// Every `compound-tense` finding is a compound tense: `have`, `has` or `had` tagged AUX
/// governing a verb, the finding running from the auxiliary to the verb and naming both.
pub proof fn compound_findings_are_compound_tenses(doc: Document, ctx: Ctx, y: LintSpec)
    requires
        rule_lints(doc, ctx, 6).contains(y),
    ensures
        exists|i: int, v: int| {
            &&& #[trigger] governs(doc, i, v)
            &&& doc.lower(i) == "have"@ || doc.lower(i) == "has"@ || doc.lower(i) == "had"@
            &&& y == LintSpec {
                span: Span { start: doc.tokens@[i].span.start, end: doc.tokens@[v].span.end },
                kind: crate::lint::LintKind::Style,
                message: "Compound tense (`"@ + doc.text(i) + " "@ + doc.text(v)
                    + "`). ASD-STE100 permits only the simple present, simple past and simple future."@,
                suggestions: Seq::empty(),
            }
        },
{
    let ps = aux_pairs(doc, true);
    lemma_compound_from(doc, ps, y);
    let c = choose|c: int| 0 <= c < ps.len() && y == crate::lint::plain(
        crate::rules::verb_form::pair_span(doc, #[trigger] ps[c]),
        crate::lint::LintKind::Style,
        crate::rules::verb_form::compound_message(doc.text(ps[c].0), doc.text(ps[c].1)),
    );
    lemma_pair_of_document(doc, true, ps[c]);
    assert(governs(doc, ps[c].0, ps[c].1));
}


/// Word `i` is a contraction split at its first apostrophe `j` (`'` or `’`): what follows it,
/// lowercased, is `t`, `re`, `ve`, `ll`, `d` or `m`, or `s` after one of the pronouns `it`, `he`,
/// `she`, `that`, `this`, `there`, `here`, `what`, `who` or `let` (elsewhere `'s` is a
/// possessive).
pub open spec fn contraction_at(doc: Document, i: int, j: int) -> bool {
    let w = doc.text(i);
    let after = crate::text::lowercase(w.skip(j + 1));
    let stem = crate::text::lowercase(w.take(j));
    &&& 0 <= j < w.len()
    &&& w[j] == '\'' || w[j] == '\u{2019}'
    &&& forall|m: int| 0 <= m < j ==> #[trigger] w[m] != '\'' && w[m] != '\u{2019}'
    &&& {
        ||| after == "t"@ || after == "re"@ || after == "ve"@ || after == "ll"@ || after == "d"@ || after == "m"@
        ||| after == "s"@ && (stem == "it"@ || stem == "he"@ || stem == "she"@ || stem == "that"@ || stem == "this"@
            || stem == "there"@ || stem == "here"@ || stem == "what"@ || stem == "who"@ || stem == "let"@)
    }
}

proof fn lemma_first_apostrophe_found(w: Seq<char>, k: int)
    requires
        0 <= k,
        crate::rules::contraction::first_apostrophe(w, k) >= 0,
    ensures
        k <= crate::rules::contraction::first_apostrophe(w, k) < w.len(),
        ({
            let j = crate::rules::contraction::first_apostrophe(w, k);
            &&& w[j] == '\'' || w[j] == '\u{2019}'
            &&& forall|m: int| k <= m < j ==> #[trigger] w[m] != '\'' && w[m] != '\u{2019}'
        }),
    decreases w.len() - k,
{
    if k < w.len() && !(w[k] == '\'' || w[k] == '\u{2019}') {
        lemma_first_apostrophe_found(w, k + 1);
    }
}

proof fn lemma_contractions_from(doc: Document, ws: Seq<int>, y: LintSpec)
    requires
        contractions_from(doc, ws).contains(y),
    ensures
        exists|a: int| 0 <= a < ws.len() && crate::rules::contraction::is_contracted(doc.text(#[trigger] ws[a]))
            && y == crate::lint::plain(
                doc.tokens@[ws[a]].span,
                crate::lint::LintKind::Style,
                crate::rules::contraction::contraction_message(doc.text(ws[a])),
            ),
    decreases ws.len(),
{
    let out = contractions_from(doc, ws);
    let prev = ws.drop_last();
    let m = choose|m: int| 0 <= m < out.len() && out[m] == y;
    let last = ws.len() - 1;
    if crate::rules::contraction::is_contracted(doc.text(ws[last])) && m == out.len() - 1 {
        assert(y == out.last());
    } else {
        assert(contractions_from(doc, prev)[m] == y);
        lemma_contractions_from(doc, prev, y);
        let a = choose|a: int| 0 <= a < prev.len() && crate::rules::contraction::is_contracted(doc.text(#[trigger] prev[a]))
            && y == crate::lint::plain(
                doc.tokens@[prev[a]].span,
                crate::lint::LintKind::Style,
                crate::rules::contraction::contraction_message(doc.text(prev[a])),
            );
        assert(ws[a] == prev[a]);
    }
}

/// Every `contraction` finding is a contraction: a prose word split at its first apostrophe as
/// `contraction_at` says, the finding over its span and naming it.
pub proof fn contraction_findings_are_contractions(doc: Document, ctx: Ctx, y: LintSpec)
    requires
        rule_lints(doc, ctx, 8).contains(y),
    ensures
        exists|i: int, j: int| {
            &&& 0 <= i < doc.tokens@.len()
            &&& is_prose(doc, i)
            &&& #[trigger] contraction_at(doc, i, j)
            &&& y == LintSpec {
                span: doc.tokens@[i].span,
                kind: crate::lint::LintKind::Style,
                message: "`"@ + doc.text(i) + "` is a contraction. ASD-STE100 wants the words written out in full."@,
                suggestions: Seq::empty(),
            }
        },
{
    let ws = prose_words(doc);
    lemma_prose_indices(doc, doc.tokens@.len() as int);
    lemma_contractions_from(doc, ws, y);
    let a = choose|a: int| 0 <= a < ws.len() && crate::rules::contraction::is_contracted(doc.text(#[trigger] ws[a]))
        && y == crate::lint::plain(
            doc.tokens@[ws[a]].span,
            crate::lint::LintKind::Style,
            crate::rules::contraction::contraction_message(doc.text(ws[a])),
        );
    let i = ws[a];
    let w = doc.text(i);
    lemma_first_apostrophe_found(w, 0);
    let j = crate::rules::contraction::first_apostrophe(w, 0);
    assert(contraction_at(doc, i, j));
}


/// The spans of the nouns among the tokens `a..=c`, in order.
pub open spec fn noun_spans(doc: Document, a: int, c: int) -> Seq<Span>
    decreases c - a + 1,
{
    if c < a {
        Seq::empty()
    } else if noun_at(doc, c) {
        noun_spans(doc, a, c - 1).push(doc.tokens@[c].span)
    } else {
        noun_spans(doc, a, c - 1)
    }
}

proof fn lemma_noun_spans(doc: Document, a: int, c: int)
    requires
        0 <= a <= c,
        noun_at(doc, a),
    ensures
        noun_spans(doc, a, c).len() == nouns_in(doc, a, c),
        noun_spans(doc, a, c).len() > 0,
        noun_spans(doc, a, c)[0] == doc.tokens@[a].span,
        noun_at(doc, c) ==> noun_spans(doc, a, c).last() == doc.tokens@[c].span,
    decreases c - a,
{
    if c > a {
        lemma_noun_spans(doc, a, c - 1);
    } else {
        assert(noun_spans(doc, a, a - 1) == Seq::<Span>::empty());
        assert(nouns_in(doc, a, a - 1) == 0);
    }
}

proof fn lemma_spans_flat(doc: Document, a: int, b: int, c: int)
    requires
        a <= b <= c,
        forall|x: int| b < x <= c ==> crate::document::is_whitespace_kind(#[trigger] doc.tokens@[x].kind),
    ensures
        noun_spans(doc, a, c) == noun_spans(doc, a, b),
    decreases c - b,
{
    if c > b {
        lemma_spans_flat(doc, a, b, c - 1);
    }
}

/// Before a run that starts after a token which is neither whitespace nor a noun (or at the
/// start), no run is open.
proof fn lemma_run_closed(doc: Document, s0: int, n: int)
    requires
        0 <= s0 <= n <= doc.tokens@.len(),
        forall|z: int| s0 <= z < n ==> crate::document::is_whitespace_kind(#[trigger] doc.tokens@[z].kind),
        s0 == 0 || (!crate::document::is_whitespace_kind(doc.tokens@[s0 - 1].kind) && !noun_at(doc, s0 - 1)),
    ensures
        cluster_upto(doc, n).0 == Seq::<Span>::empty(),
    decreases n,
{
    if n > s0 {
        lemma_run_closed(doc, s0, n - 1);
    }
}

/// Over nouns and whitespace the open run collects the nouns' spans.
proof fn lemma_run_collects(doc: Document, a: int, n: int)
    requires
        0 <= a <= n <= doc.tokens@.len(),
        cluster_upto(doc, a).0 == Seq::<Span>::empty(),
        forall|z: int| a <= z < n ==> crate::document::is_whitespace_kind(doc.tokens@[z].kind) || #[trigger] noun_at(doc, z),
    ensures
        cluster_upto(doc, n).0 == noun_spans(doc, a, n - 1),
    decreases n - a,
{
    if n > a {
        lemma_run_collects(doc, a, n - 1);
        assert(crate::document::is_whitespace_kind(doc.tokens@[n - 1].kind) || noun_at(doc, n - 1));
    } else {
        assert(noun_spans(doc, a, a - 1) == Seq::<Span>::empty());
    }
}

/// What has been reported stays reported.
proof fn lemma_reports_stay(doc: Document, n: int, m: int, l: LintSpec)
    requires
        0 <= n <= m,
        cluster_upto(doc, n).1.contains(l),
    ensures
        cluster_upto(doc, m).1.contains(l),
    decreases m - n,
{
    if m > n {
        lemma_reports_stay(doc, n, m - 1, l);
        let st = cluster_upto(doc, m - 1);
        let k = choose|k: int| 0 <= k < st.1.len() && st.1[k] == l;
        assert(report(st.0, st.1)[k] == l);
        assert(cluster_upto(doc, m).1[k] == l);
    }
}

/// A cluster is reported: a run of nouns outside the headings with nothing but whitespace
/// between them, more than three of them, that nothing but whitespace separates from a token
/// which is neither whitespace nor such a noun (or from either end of the document), gets a
/// `noun-cluster` finding from its first noun to its last that says how many nouns it holds;
/// with the rule on, `check` reports it.
#[verifier::spinoff_prover]
pub proof fn noun_clusters_are_reported(doc: Document, ctx: Ctx, s0: int, a: int, b: int, e0: int)
    requires
        noun_run(doc, a, b),
        nouns_in(doc, a, b) > 3,
        0 <= s0 <= a,
        forall|z: int| s0 <= z < a ==> crate::document::is_whitespace_kind(#[trigger] doc.tokens@[z].kind),
        s0 == 0 || (!crate::document::is_whitespace_kind(doc.tokens@[s0 - 1].kind) && !noun_at(doc, s0 - 1)),
        b < e0 <= doc.tokens@.len(),
        forall|z: int| b < z < e0 ==> crate::document::is_whitespace_kind(#[trigger] doc.tokens@[z].kind),
        e0 == doc.tokens@.len() || (!crate::document::is_whitespace_kind(doc.tokens@[e0].kind) && !noun_at(doc, e0)),
    ensures
        ({
            let l = LintSpec {
                span: Span { start: doc.tokens@[a].span.start, end: doc.tokens@[b].span.end },
                kind: crate::lint::LintKind::Readability,
                message: crate::text::decimal(nouns_in(doc, a, b))
                    + " nouns in a row; ASD-STE100 allows at most 3. Break the cluster up with a preposition."@,
                suggestions: Seq::empty(),
            };
            &&& rule_lints(doc, ctx, 4).contains(l)
            &&& crate::ctx::enabled(ctx.config.disable@, "noun-cluster"@) ==> findings_of(doc, ctx).contains(("noun-cluster"@, l))
        }),
{
    let n = doc.tokens@.len() as int;
    let l = LintSpec {
        span: Span { start: doc.tokens@[a].span.start, end: doc.tokens@[b].span.end },
        kind: crate::lint::LintKind::Readability,
        message: crate::text::decimal(nouns_in(doc, a, b))
            + " nouns in a row; ASD-STE100 allows at most 3. Break the cluster up with a preposition."@,
        suggestions: Seq::empty(),
    };
    lemma_run_closed(doc, s0, a);
    assert forall|z: int| a <= z < e0 implies crate::document::is_whitespace_kind(doc.tokens@[z].kind) || #[trigger] noun_at(doc, z) by {
        if z > b {
            assert(crate::document::is_whitespace_kind(doc.tokens@[z].kind));
        }
    }
    lemma_run_collects(doc, a, e0);
    lemma_spans_flat(doc, a, b, e0 - 1);
    lemma_noun_spans(doc, a, b);
    let st = cluster_upto(doc, e0);
    assert(st.0 == noun_spans(doc, a, b));
    assert(report(st.0, st.1).last() == l);
    assert(report(st.0, st.1).contains(l));
    if e0 < n {
        assert(cluster_upto(doc, e0 + 1) == cluster_step(doc, e0, st));
        assert(cluster_upto(doc, e0 + 1).1 == report(st.0, st.1));
        lemma_reports_stay(doc, e0 + 1, n, l);
        let fin = cluster_upto(doc, n);
        let k = choose|k: int| 0 <= k < fin.1.len() && fin.1[k] == l;
        assert(report(fin.0, fin.1)[k] == l);
    }
    assert(rule_lints(doc, ctx, 4).contains(l));
    if crate::ctx::enabled(ctx.config.disable@, "noun-cluster"@) {
        lemma_reaches_check(doc, ctx, 4, l);
    }
}


/// `y` is the `unapproved-word` finding on prose word `i` read against row `r`: the word is judged
/// (not immune) in the part of speech it is tagged with, the glossary declares neither it nor its
/// lemma in that part of speech, and `r` is an unapproved row in an equivalent part of speech,
/// either the word's own row or, for a word without one, its lemma's row where the word's form
/// flags fit the row (a past, -ing or third-person form of a verb; a plural of a noun).
pub open spec fn unapproved_at(doc: Document, ctx: Ctx, i: int, r: Seq<char>, y: LintSpec) -> bool {
    let rows = ctx.wordset.rows();
    let word = doc.lower(i);
    let lemma = crate::rules::dictionary::lemma_of(doc.tokens@[i].kind);
    let table = ctx.wordset.alternatives_of();
    let alts = crate::rules::dictionary::other_alternatives(if table.contains_key(r) { table[r]@ } else { Seq::empty() }, r);
    &&& 0 <= i < doc.tokens@.len()
    &&& is_prose(doc, i)
    &&& !crate::tags::tags_of(doc).1[i]
    &&& crate::tags::tags_of(doc).0[i] is Some
    &&& {
        let used = crate::tags::tags_of(doc).0[i]->Some_0;
        &&& !crate::glossary::glossary_allows(ctx.glossary@, word, used)
        &&& !(lemma is Some && crate::glossary::glossary_allows(ctx.glossary@, lemma->Some_0, used))
        &&& rows.contains_key(r)
        &&& !rows[r].approved
        &&& rows[r].pos is Some
        &&& crate::wordset::is_equivalent(used, rows[r].pos->Some_0)
        &&& {
            ||| r == word
            ||| !rows.contains_key(word) && lemma == Some(r) && match crate::document::meta_of(doc.tokens@[i].kind) {
                Some(m) => (rows[r].pos == Some(Upos::VERB) && (m.verb_past || m.verb_progressive || m.verb_third_person))
                    || (rows[r].pos == Some(Upos::NOUN) && m.non_singular_noun),
                None => false,
            }
        }
        &&& y == LintSpec {
            span: doc.tokens@[i].span,
            kind: crate::lint::LintKind::WordChoice,
            message: crate::rules::dictionary::unapproved_message(word, r, used, alts),
            suggestions: crate::rules::dictionary::single_words(alts),
        }
    }
}

proof fn lemma_collect_from(doc: Document, ctx: Ctx, ws: Seq<int>, y: LintSpec)
    requires
        collect(doc, ctx, ws, 0).contains(y),
    ensures
        exists|a: int| 0 <= a < ws.len() && unapproved_lint(doc, ctx, #[trigger] ws[a]) == Some(y),
    decreases ws.len(),
{
    let out = collect(doc, ctx, ws, 0);
    let prev = ws.drop_last();
    let m = choose|m: int| 0 <= m < out.len() && out[m] == y;
    let last = ws.len() - 1;
    if unapproved_lint(doc, ctx, ws[last]) is Some && m == out.len() - 1 {
        assert(y == out.last());
    } else {
        assert(collect(doc, ctx, prev, 0)[m] == y);
        lemma_collect_from(doc, ctx, prev, y);
        let a = choose|a: int| 0 <= a < prev.len() && unapproved_lint(doc, ctx, #[trigger] prev[a]) == Some(y);
        assert(ws[a] == prev[a]);
    }
}

/// Every `unapproved-word` finding is a word read against an unapproved row as `unapproved_at`
/// says: its own row, or its lemma's row where its form flags fit.
#[verifier::spinoff_prover]
#[verifier::rlimit(40)]
pub proof fn unapproved_findings_read_an_unapproved_row(doc: Document, ctx: Ctx, y: LintSpec)
    requires
        rule_lints(doc, ctx, 0).contains(y),
    ensures
        exists|i: int, r: Seq<char>| #[trigger] unapproved_at(doc, ctx, i, r, y),
{
    let ws = prose_words(doc);
    lemma_prose_indices(doc, doc.tokens@.len() as int);
    lemma_collect_from(doc, ctx, ws, y);
    let a = choose|a: int| 0 <= a < ws.len() && unapproved_lint(doc, ctx, #[trigger] ws[a]) == Some(y);
    let i = ws[a];
    let v = crate::rules::dictionary::ctx_verdict(doc, ctx, i);
    let r = v->Some_0->Unapproved_row;
    assert(unapproved_at(doc, ctx, i, r, y));
}


proof fn lemma_collect_contain_which(doc: Document, ctx: Ctx, ws: Seq<int>, a: int, which: nat, l: LintSpec)
    requires
        0 <= a < ws.len(),
        which == 1 ==> wrong_pos_lint(doc, ctx, ws[a]) == Some(l),
        which == 2 ==> unknown_lint(doc, ctx, ws[a]) == Some(l),
        which == 1 || which == 2,
    ensures
        collect(doc, ctx, ws, which).contains(l),
    decreases ws.len(),
{
    let out = collect(doc, ctx, ws, which);
    if a == ws.len() - 1 {
        assert(out.last() == l);
    } else {
        let prev = ws.drop_last();
        assert(prev[a] == ws[a]);
        lemma_collect_contain_which(doc, ctx, prev, a, which, l);
        let p = collect(doc, ctx, prev, which);
        let m = choose|m: int| 0 <= m < p.len() && p[m] == l;
        assert(out[m] == p[m]);
    }
}

/// A word used outside the part of speech its row approves is reported: a prose word the
/// cascade leaves judged, tagged as a noun, verb, adjective or adverb, that the glossary does not
/// declare in that part of speech (nor its lemma), and whose own row is approved in a part of
/// speech the tag is not equivalent to, gets a `wrong-pos` finding naming both parts of speech;
/// with the rule on, `check` reports it.
pub proof fn words_in_the_wrong_part_of_speech_are_reported(doc: Document, ctx: Ctx, i: int, used: Upos, approved: Upos)
    requires
        0 <= i < doc.tokens@.len(),
        is_prose(doc, i),
        !crate::tags::tags_of(doc).1[i],
        crate::tags::tags_of(doc).0[i] == Some(used),
        used == Upos::NOUN || used == Upos::VERB || used == Upos::ADJ || used == Upos::ADV,
        !crate::glossary::glossary_allows(ctx.glossary@, doc.lower(i), used),
        !(crate::rules::dictionary::lemma_of(doc.tokens@[i].kind) is Some && crate::glossary::glossary_allows(
            ctx.glossary@,
            crate::rules::dictionary::lemma_of(doc.tokens@[i].kind)->Some_0,
            used,
        )),
        ctx.wordset.rows().contains_key(doc.lower(i)),
        ctx.wordset.rows()[doc.lower(i)].approved,
        ctx.wordset.rows()[doc.lower(i)].pos == Some(approved),
        !crate::wordset::is_equivalent(used, approved),
    ensures
        ({
            let l = LintSpec {
                span: doc.tokens@[i].span,
                kind: crate::lint::LintKind::Usage,
                message: "`"@ + doc.lower(i) + "` is approved only as "@ + crate::wordset::description(approved)
                    + ", but is used here as "@ + crate::wordset::description(used)
                    + ". Add it to the glossary if it is a Technical Name or Technical Verb."@,
                suggestions: Seq::empty(),
            };
            &&& rule_lints(doc, ctx, 1).contains(l)
            &&& crate::ctx::enabled(ctx.config.disable@, "wrong-pos"@) ==> findings_of(doc, ctx).contains(("wrong-pos"@, l))
        }),
{
    let ws = prose_words(doc);
    let a = lemma_prose_position(doc, doc.tokens@.len() as int, i);
    let l = crate::lint::plain(
        doc.tokens@[i].span,
        crate::lint::LintKind::Usage,
        crate::rules::dictionary::wrong_pos_message(doc.lower(i), approved, used),
    );
    assert(crate::rules::dictionary::ctx_verdict(doc, ctx, i) == Some(crate::rules::dictionary::VerdictSpec::WrongPos {
        word: doc.lower(i),
        approved,
        used,
    }));
    lemma_collect_contain_which(doc, ctx, ws, a, 1, l);
    if crate::ctx::enabled(ctx.config.disable@, "wrong-pos"@) {
        lemma_reaches_check(doc, ctx, 1, l);
    }
}

proof fn lemma_ing_contain(doc: Document, ws: Seq<int>, a: int)
    requires
        0 <= a < ws.len(),
        crate::tags::tags_of(doc).0[ws[a]] == Some(Upos::VERB),
        crate::rules::verb_form::is_progressive_kind(doc.tokens@[ws[a]].kind),
    ensures
        ing_from(doc, ws).contains(
            crate::lint::plain(
                doc.tokens@[ws[a]].span,
                crate::lint::LintKind::Style,
                crate::rules::verb_form::ing_message(doc.text(ws[a])),
            ),
        ),
    decreases ws.len(),
{
    let l = crate::lint::plain(
        doc.tokens@[ws[a]].span,
        crate::lint::LintKind::Style,
        crate::rules::verb_form::ing_message(doc.text(ws[a])),
    );
    let out = ing_from(doc, ws);
    if a == ws.len() - 1 {
        assert(out.last() == l);
    } else {
        let prev = ws.drop_last();
        assert(prev[a] == ws[a]);
        lemma_ing_contain(doc, prev, a);
        let p = ing_from(doc, prev);
        let m = choose|m: int| 0 <= m < p.len() && p[m] == l;
        assert(out[m] == p[m]);
    }
}

proof fn lemma_ing_from(doc: Document, ws: Seq<int>, y: LintSpec)
    requires
        ing_from(doc, ws).contains(y),
    ensures
        exists|a: int| 0 <= a < ws.len() && crate::tags::tags_of(doc).0[#[trigger] ws[a]] == Some(Upos::VERB)
            && crate::rules::verb_form::is_progressive_kind(doc.tokens@[ws[a]].kind)
            && y == crate::lint::plain(doc.tokens@[ws[a]].span, crate::lint::LintKind::Style, crate::rules::verb_form::ing_message(doc.text(ws[a]))),
    decreases ws.len(),
{
    let out = ing_from(doc, ws);
    let prev = ws.drop_last();
    let m = choose|m: int| 0 <= m < out.len() && out[m] == y;
    let last = ws.len() - 1;
    if crate::tags::tags_of(doc).0[ws[last]] == Some(Upos::VERB) && crate::rules::verb_form::is_progressive_kind(doc.tokens@[ws[last]].kind)
        && m == out.len() - 1 {
        assert(y == out.last());
    } else {
        assert(ing_from(doc, prev)[m] == y);
        lemma_ing_from(doc, prev, y);
        let a = choose|a: int| 0 <= a < prev.len() && crate::tags::tags_of(doc).0[#[trigger] prev[a]] == Some(Upos::VERB)
            && crate::rules::verb_form::is_progressive_kind(doc.tokens@[prev[a]].kind)
            && y == crate::lint::plain(doc.tokens@[prev[a]].span, crate::lint::LintKind::Style, crate::rules::verb_form::ing_message(doc.text(prev[a])));
        assert(ws[a] == prev[a]);
    }
}

/// An -ing form left as a verb: a prose word the cascade tags VERB whose form flag marks it an
/// -ing form.
pub open spec fn ing_verb_at(doc: Document, i: int) -> bool {
    &&& 0 <= i < doc.tokens@.len()
    &&& is_prose(doc, i)
    &&& crate::tags::tags_of(doc).0[i] == Some(Upos::VERB)
    &&& crate::document::meta_of(doc.tokens@[i].kind) matches Some(m) && m.verb_progressive
}

pub open spec fn ing_lint(doc: Document, i: int) -> LintSpec {
    LintSpec {
        span: doc.tokens@[i].span,
        kind: crate::lint::LintKind::Style,
        message: "`"@ + doc.text(i) + "` is an -ing form used as a verb. ASD-STE100 allows -ing words only inside a Technical Name."@,
        suggestions: Seq::empty(),
    }
}

/// The `ing-verb` findings are exactly the -ing forms left as verbs: each such word gets a finding
/// over its span that names it, and every finding is one of these.
pub proof fn ing_verbs_are_reported(doc: Document, ctx: Ctx, i: int, y: LintSpec)
    ensures
        ing_verb_at(doc, i) ==> rule_lints(doc, ctx, 7).contains(ing_lint(doc, i)),
        ing_verb_at(doc, i) && crate::ctx::enabled(ctx.config.disable@, "ing-verb"@) ==> findings_of(doc, ctx).contains(
            ("ing-verb"@, ing_lint(doc, i)),
        ),
        rule_lints(doc, ctx, 7).contains(y) ==> exists|j: int| #[trigger] ing_verb_at(doc, j) && y == ing_lint(doc, j),
{
    let ws = prose_words(doc);
    lemma_prose_indices(doc, doc.tokens@.len() as int);
    if ing_verb_at(doc, i) {
        let a = lemma_prose_position(doc, doc.tokens@.len() as int, i);
        lemma_ing_contain(doc, ws, a);
        if crate::ctx::enabled(ctx.config.disable@, "ing-verb"@) {
            lemma_reaches_check(doc, ctx, 7, ing_lint(doc, i));
        }
    }
    if rule_lints(doc, ctx, 7).contains(y) {
        lemma_ing_from(doc, ws, y);
        let a = choose|a: int| 0 <= a < ws.len() && crate::tags::tags_of(doc).0[#[trigger] ws[a]] == Some(Upos::VERB)
            && crate::rules::verb_form::is_progressive_kind(doc.tokens@[ws[a]].kind)
            && y == crate::lint::plain(doc.tokens@[ws[a]].span, crate::lint::LintKind::Style, crate::rules::verb_form::ing_message(doc.text(ws[a])));
        assert(ing_verb_at(doc, ws[a]));
    }
}


/// How many of the tokens `first..end` are words.
pub open spec fn words_between(doc: Document, first: int, end: int) -> nat
    decreases end - first,
{
    if end <= first {
        0
    } else if crate::document::is_word_kind(doc.tokens@[end - 1].kind) {
        words_between(doc, first, end - 1) + 1
    } else {
        words_between(doc, first, end - 1)
    }
}

proof fn lemma_words_between(doc: Document, first: int, end: int)
    ensures
        crate::rules::sentence::word_count(doc, first, end) == words_between(doc, first, end),
    decreases end - first,
{
    if end > first {
        lemma_words_between(doc, first, end - 1);
    }
}

/// The most words a sentence may have: 20 in a procedure, 25 in a description.
pub open spec fn sentence_limit(ctx: Ctx) -> nat {
    if ctx.config.text_type == crate::config::TextType::Procedure {
        20
    } else {
        25
    }
}

/// Sentence `k` of the document is too long: it is not empty, it does not start in a heading, and
/// it has at least three words (a table cell or list fragment has fewer) and more than the limit.
pub open spec fn too_long_at(doc: Document, ctx: Ctx, k: int) -> bool {
    let s = doc.sentences@[k];
    let span = Span { start: doc.tokens@[s.first as int].span.start, end: doc.tokens@[s.end - 1].span.end };
    &&& 0 <= k < doc.sentences@.len()
    &&& s.first < s.end
    &&& !crate::tags::in_heading(doc.headings@, span)
    &&& words_between(doc, s.first as int, s.end as int) >= 3
    &&& words_between(doc, s.first as int, s.end as int) > sentence_limit(ctx)
}

pub open spec fn too_long_lint(doc: Document, ctx: Ctx, k: int) -> LintSpec {
    let s = doc.sentences@[k];
    LintSpec {
        span: Span { start: doc.tokens@[s.first as int].span.start, end: doc.tokens@[s.end - 1].span.end },
        kind: crate::lint::LintKind::Readability,
        message: crate::text::decimal(words_between(doc, s.first as int, s.end as int)) + " words; ASD-STE100 allows at most "@
            + crate::text::decimal(sentence_limit(ctx)) + " here. Split the sentence."@,
        suggestions: Seq::empty(),
    }
}

proof fn lemma_length_lint(doc: Document, ctx: Ctx, k: int)
    requires
        0 <= k < doc.sentences@.len(),
    ensures
        length_lint(doc, ctx.config.text_type.spec_max_sentence_words(), doc.sentences@[k]) == if too_long_at(doc, ctx, k) {
            Some(too_long_lint(doc, ctx, k))
        } else {
            None
        },
{
    let s = doc.sentences@[k];
    lemma_words_between(doc, s.first as int, s.end as int);
}

proof fn lemma_lengths_contain(doc: Document, max: nat, ss: Seq<Sentence>, k: int, l: LintSpec)
    requires
        0 <= k < ss.len(),
        length_lint(doc, max, ss[k]) == Some(l),
    ensures
        lengths_from(doc, max, ss).contains(l),
    decreases ss.len(),
{
    let out = lengths_from(doc, max, ss);
    if k == ss.len() - 1 {
        assert(out.last() == l);
    } else {
        let prev = ss.drop_last();
        assert(prev[k] == ss[k]);
        lemma_lengths_contain(doc, max, prev, k, l);
        let p = lengths_from(doc, max, prev);
        let m = choose|m: int| 0 <= m < p.len() && p[m] == l;
        assert(out[m] == p[m]);
    }
}

proof fn lemma_lengths_from(doc: Document, max: nat, ss: Seq<Sentence>, y: LintSpec)
    requires
        lengths_from(doc, max, ss).contains(y),
    ensures
        exists|k: int| 0 <= k < ss.len() && length_lint(doc, max, #[trigger] ss[k]) == Some(y),
    decreases ss.len(),
{
    let out = lengths_from(doc, max, ss);
    let prev = ss.drop_last();
    let m = choose|m: int| 0 <= m < out.len() && out[m] == y;
    let last = ss.len() - 1;
    if length_lint(doc, max, ss[last]) is Some && m == out.len() - 1 {
        assert(y == out.last());
    } else {
        assert(lengths_from(doc, max, prev)[m] == y);
        lemma_lengths_from(doc, max, prev, y);
        let k = choose|k: int| 0 <= k < prev.len() && length_lint(doc, max, #[trigger] prev[k]) == Some(y);
        assert(ss[k] == prev[k]);
    }
}

/// The `sentence-length` findings are exactly the sentences that are too long (`too_long_at`):
/// each gets a finding over its span that says how many words it has and what the limit is, 20
/// in a procedure and 25 in a description; and every finding is one of these.
pub proof fn long_sentences_are_reported(doc: Document, ctx: Ctx, k: int, y: LintSpec)
    ensures
        too_long_at(doc, ctx, k) ==> rule_lints(doc, ctx, 3).contains(too_long_lint(doc, ctx, k)),
        too_long_at(doc, ctx, k) && crate::ctx::enabled(ctx.config.disable@, "sentence-length"@) ==> findings_of(
            doc,
            ctx,
        ).contains(("sentence-length"@, too_long_lint(doc, ctx, k))),
        rule_lints(doc, ctx, 3).contains(y) ==> exists|j: int| #[trigger] too_long_at(doc, ctx, j) && y == too_long_lint(doc, ctx, j),
{
    let max = ctx.config.text_type.spec_max_sentence_words();
    let ss = doc.sentences@;
    if too_long_at(doc, ctx, k) {
        lemma_length_lint(doc, ctx, k);
        lemma_lengths_contain(doc, max, ss, k, too_long_lint(doc, ctx, k));
        if crate::ctx::enabled(ctx.config.disable@, "sentence-length"@) {
            lemma_reaches_check(doc, ctx, 3, too_long_lint(doc, ctx, k));
        }
    }
    if rule_lints(doc, ctx, 3).contains(y) {
        lemma_lengths_from(doc, max, ss, y);
        let j = choose|j: int| 0 <= j < ss.len() && length_lint(doc, max, #[trigger] ss[j]) == Some(y);
        lemma_length_lint(doc, ctx, j);
        assert(too_long_at(doc, ctx, j));
    }
}


/// An out-of-vocabulary word is reported: a prose word the cascade leaves judged, tagged as a
/// noun, verb, adjective or adverb, that the glossary does not declare in that part of speech
/// (nor its lemma), with no row of its own, and either with a lemma that has no row either, or
/// with no lemma and no inflection flag at all, gets an `unknown-word` finding naming it; with
/// the rule on, `check` reports it.
pub proof fn unknown_words_are_reported(doc: Document, ctx: Ctx, i: int, used: Upos)
    requires
        0 <= i < doc.tokens@.len(),
        is_prose(doc, i),
        !crate::tags::tags_of(doc).1[i],
        crate::tags::tags_of(doc).0[i] == Some(used),
        used == Upos::NOUN || used == Upos::VERB || used == Upos::ADJ || used == Upos::ADV,
        !crate::glossary::glossary_allows(ctx.glossary@, doc.lower(i), used),
        !ctx.wordset.rows().contains_key(doc.lower(i)),
        match crate::rules::dictionary::lemma_of(doc.tokens@[i].kind) {
            Some(l) => !crate::glossary::glossary_allows(ctx.glossary@, l, used) && !ctx.wordset.rows().contains_key(l),
            None => match crate::document::meta_of(doc.tokens@[i].kind) {
                Some(m) => !m.verb_past_participle && !m.verb_past && !m.verb_progressive && !m.verb_third_person
                    && !m.non_singular_noun,
                None => true,
            },
        },
    ensures
        ({
            let l = LintSpec {
                span: doc.tokens@[i].span,
                kind: crate::lint::LintKind::WordChoice,
                message: "`"@ + doc.lower(i)
                    + "` is not in the ASD-STE100 approved vocabulary. Add it to `docs/glossary.nix` if it is a Technical Name or Technical Verb."@,
                suggestions: Seq::empty(),
            };
            &&& rule_lints(doc, ctx, 2).contains(l)
            &&& crate::ctx::enabled(ctx.config.disable@, "unknown-word"@) ==> findings_of(doc, ctx).contains(("unknown-word"@, l))
        }),
{
    let ws = prose_words(doc);
    let a = lemma_prose_position(doc, doc.tokens@.len() as int, i);
    let l = crate::lint::plain(
        doc.tokens@[i].span,
        crate::lint::LintKind::WordChoice,
        crate::rules::dictionary::unknown_message(doc.lower(i)),
    );
    assert(crate::rules::dictionary::ctx_verdict(doc, ctx, i) matches Some(crate::rules::dictionary::VerdictSpec::Unknown { word, .. }) && word == doc.lower(i));
    lemma_collect_contain_which(doc, ctx, ws, a, 2, l);
    if crate::ctx::enabled(ctx.config.disable@, "unknown-word"@) {
        lemma_reaches_check(doc, ctx, 2, l);
    }
}

} // verus!
