//! Procedural ASD-STE100 checks over a tagged Markdown document.
//!
//! Roughly ten of the standard's 53 rules are decidable without understanding the text; the
//! rest are semantic.
pub mod config;
pub mod ctx;
pub mod document;
pub mod glossary;
pub mod laws;
pub mod lint;
pub mod readback;
pub mod report;
pub mod rules;
pub mod skeleton;
pub mod spacing;
pub mod strmap;
pub mod tags;
pub mod text;
pub mod upos;
pub mod wordset;

use vstd::prelude::*;
pub use ctx::Ctx;
use crate::document::Document;
use crate::lint::{Lint, LintSpec, lints_view};
use crate::rules::tags_for;
use crate::tags::Tags;
use crate::text::{seq_less, str_less};

verus! {

/// A rule's report on one span.
pub struct Finding {
    pub rule: &'static str,
    pub lint: Lint,
}

pub type FindingSpec = (Seq<char>, LintSpec);

impl View for Finding {
    type V = FindingSpec;

    open spec fn view(&self) -> FindingSpec {
        (self.rule@, self.lint@)
    }
}

pub open spec fn findings_view(v: Seq<Finding>) -> Seq<FindingSpec> {
    v.map_values(|f: Finding| f@)
}

/// The rules, in the order they run.
pub open spec fn rule_name(k: int) -> Seq<char> {
    if k == 0 {
        "unapproved-word"@
    } else if k == 1 {
        "wrong-pos"@
    } else if k == 2 {
        "unknown-word"@
    } else if k == 3 {
        "sentence-length"@
    } else if k == 4 {
        "noun-cluster"@
    } else if k == 5 {
        "passive-voice"@
    } else if k == 6 {
        "compound-tense"@
    } else if k == 7 {
        "ing-verb"@
    } else {
        "contraction"@
    }
}

pub const RULE_COUNT: usize = 9;

fn rule_name_exec(k: usize) -> (s: &'static str)
    requires
        k < RULE_COUNT,
    ensures
        s@ == rule_name(k as int),
{
    if k == 0 {
        "unapproved-word"
    } else if k == 1 {
        "wrong-pos"
    } else if k == 2 {
        "unknown-word"
    } else if k == 3 {
        "sentence-length"
    } else if k == 4 {
        "noun-cluster"
    } else if k == 5 {
        "passive-voice"
    } else if k == 6 {
        "compound-tense"
    } else if k == 7 {
        "ing-verb"
    } else {
        "contraction"
    }
}

/// The names of the rules, in the order they run.
pub fn rule_names() -> (names: Vec<&'static str>)
    ensures
        names@.len() == RULE_COUNT,
        forall|k: int| 0 <= k < RULE_COUNT ==> (#[trigger] names@[k])@ == rule_name(k),
{
    let mut names: Vec<&'static str> = Vec::new();
    let mut k: usize = 0;
    while k < RULE_COUNT
        invariant
            k <= RULE_COUNT,
            names@.len() == k,
            forall|j: int| 0 <= j < k ==> (#[trigger] names@[j])@ == rule_name(j),
        decreases RULE_COUNT - k,
    {
        names.push(rule_name_exec(k));
        k = k + 1;
    }
    names
}

/// What rule `k` reports on a document, in document order.
pub open spec fn rule_lints(doc: Document, ctx: Ctx, k: int) -> Seq<LintSpec> {
    if k <= 2 {
        rules::dictionary::collect(doc, ctx, rules::prose_words(doc), k as nat)
    } else if k == 3 {
        rules::sentence::long_sentences(doc, ctx)
    } else if k == 4 {
        rules::noun_cluster::clusters(doc)
    } else if k == 5 {
        rules::verb_form::passive_from(doc, rules::verb_form::aux_pairs(doc, false))
    } else if k == 6 {
        rules::verb_form::compound_from(doc, rules::verb_form::aux_pairs(doc, true))
    } else if k == 7 {
        rules::verb_form::ing_from(doc, rules::prose_words(doc))
    } else {
        rules::contraction::contractions_from(doc, rules::prose_words(doc))
    }
}

fn run_rule(doc: &Document, tags: &Tags, ctx: &Ctx, k: usize) -> (v: Vec<Lint>)
    requires
        tags_for(*doc, *tags),
        k < RULE_COUNT,
    ensures
        lints_view(v@) == rule_lints(*doc, *ctx, k as int),
{
    if k == 0 {
        rules::dictionary::unapproved_word(doc, tags, ctx)
    } else if k == 1 {
        rules::dictionary::wrong_pos(doc, tags, ctx)
    } else if k == 2 {
        rules::dictionary::unknown_word(doc, tags, ctx)
    } else if k == 3 {
        rules::sentence::length(doc, tags, ctx)
    } else if k == 4 {
        rules::noun_cluster::cluster(doc, tags, ctx)
    } else if k == 5 {
        rules::verb_form::passive(doc, tags, ctx)
    } else if k == 6 {
        rules::verb_form::compound_tense(doc, tags, ctx)
    } else if k == 7 {
        rules::verb_form::ing_as_verb(doc, tags, ctx)
    } else {
        rules::contraction::contraction(doc, tags, ctx)
    }
}

pub open spec fn tagged(rule: Seq<char>, ls: Seq<LintSpec>) -> Seq<FindingSpec> {
    ls.map_values(|l: LintSpec| (rule, l))
}

/// The findings of the enabled rules among the first `k`, rule by rule.
pub open spec fn unsorted(doc: Document, ctx: Ctx, k: int) -> Seq<FindingSpec>
    decreases k,
{
    if k <= 0 {
        Seq::empty()
    } else if ctx::enabled(ctx.config.disable@, rule_name(k - 1)) {
        unsorted(doc, ctx, k - 1) + tagged(rule_name(k - 1), rule_lints(doc, ctx, k - 1))
    } else {
        unsorted(doc, ctx, k - 1)
    }
}

/// Findings are ordered by span start, then span end, then rule name.
pub open spec fn key_less(a: FindingSpec, b: FindingSpec) -> bool {
    a.1.span.start < b.1.span.start || (a.1.span.start == b.1.span.start && (a.1.span.end < b.1.span.end || (
    a.1.span.end == b.1.span.end && seq_less(a.0, b.0))))
}

/// `x` placed after every element of the sorted `s` whose key is not greater.
pub open spec fn insert_sorted(s: Seq<FindingSpec>, x: FindingSpec) -> Seq<FindingSpec>
    decreases s.len(),
{
    if s.len() == 0 {
        seq![x]
    } else if key_less(x, s[0]) {
        seq![x] + s
    } else {
        seq![s[0]] + insert_sorted(s.drop_first(), x)
    }
}

/// A stable sort by key.
pub open spec fn sorted_by_key(xs: Seq<FindingSpec>) -> Seq<FindingSpec>
    decreases xs.len(),
{
    if xs.len() == 0 {
        Seq::empty()
    } else {
        insert_sorted(sorted_by_key(xs.drop_last()), xs.last())
    }
}

/// What `check` reports: the findings of every enabled rule, sorted stably by span and rule.
pub open spec fn findings_of(doc: Document, ctx: Ctx) -> Seq<FindingSpec> {
    sorted_by_key(unsorted(doc, ctx, RULE_COUNT as int))
}

/// The first position in `s` whose key is greater than `x`'s, or `s.len()`.
pub open spec fn first_greater(s: Seq<FindingSpec>, x: FindingSpec) -> int
    decreases s.len(),
{
    if s.len() == 0 {
        0
    } else if key_less(x, s[0]) {
        0
    } else {
        1 + first_greater(s.drop_first(), x)
    }
}

pub proof fn lemma_insert_sorted(s: Seq<FindingSpec>, x: FindingSpec)
    ensures
        0 <= first_greater(s, x) <= s.len(),
        insert_sorted(s, x) == s.insert(first_greater(s, x), x),
        forall|j: int| 0 <= j < first_greater(s, x) ==> !key_less(x, #[trigger] s[j]),
        first_greater(s, x) < s.len() ==> key_less(x, s[first_greater(s, x)]),
    decreases s.len(),
{
    if s.len() > 0 {
        lemma_insert_sorted(s.drop_first(), x);
        if key_less(x, s[0]) {
            assert(seq![x] + s =~= s.insert(0, x));
        } else {
            let p = first_greater(s.drop_first(), x);
            assert(seq![s[0]] + s.drop_first().insert(p, x) =~= s.insert(p + 1, x));
            assert forall|j: int| 0 <= j < first_greater(s, x) implies !key_less(x, #[trigger] s[j]) by {
                if j > 0 {
                    assert(s[j] == s.drop_first()[j - 1]);
                }
            }
        }
    } else {
        assert(seq![x] =~= s.insert(0, x));
    }
}

fn finding_less(a: &Finding, b: &Finding) -> (r: bool)
    ensures
        r == key_less(a@, b@),
{
    a.lint.span.start < b.lint.span.start || (a.lint.span.start == b.lint.span.start && (a.lint.span.end < b.lint.span.end || (
    a.lint.span.end == b.lint.span.end && str_less(a.rule, b.rule))))
}

/// Inserts `x` into the sorted `v` after every finding whose key is not greater.
fn insert_finding(v: &mut Vec<Finding>, x: Finding)
    ensures
        findings_view(final(v)@) == insert_sorted(findings_view(old(v)@), x@),
{
    let ghost s = findings_view(v@);
    proof {
        lemma_insert_sorted(s, x@);
    }
    let mut p: usize = 0;
    while p < v.len() && !finding_less(&x, &v[p])
        invariant
            s == findings_view(v@),
            p <= v@.len(),
            forall|j: int| 0 <= j < p ==> !key_less(x@, #[trigger] s[j]),
            0 <= first_greater(s, x@) <= s.len(),
            forall|j: int| 0 <= j < first_greater(s, x@) ==> !key_less(x@, #[trigger] s[j]),
            first_greater(s, x@) < s.len() ==> key_less(x@, s[first_greater(s, x@)]),
            p <= first_greater(s, x@),
        decreases v@.len() - p,
    {
        assert(s[p as int] == v@[p as int]@);
        p = p + 1;
    }
    proof {
        if p < v@.len() {
            assert(s[p as int] == v@[p as int]@);
        }
    }
    assert(p == first_greater(s, x@));
    let ghost xv = x@;
    v.insert(p, x);
    assert(findings_view(v@) =~= s.insert(p as int, xv));
}

/// Char spans in the findings index the document's source, not the rendered Markdown.
pub fn check(doc: &Document, ctx: &Ctx) -> (findings: Vec<Finding>)
    requires
        doc.wf(),
    ensures
        findings_view(findings@) == findings_of(*doc, *ctx),
{
    let tags = Tags::new(doc);
    let mut all: Vec<Finding> = Vec::new();
    let mut k: usize = 0;
    assert(findings_view(all@) =~= Seq::<FindingSpec>::empty());
    while k < RULE_COUNT
        invariant
            tags_for(*doc, tags),
            k <= RULE_COUNT,
            findings_view(all@) == unsorted(*doc, *ctx, k as int),
        decreases RULE_COUNT - k,
    {
        let name = rule_name_exec(k);
        if ctx.rule_enabled(name) {
            let mut lints = run_rule(doc, &tags, ctx, k);
            let ghost before = findings_view(all@);
            let ghost ls = lints_view(lints@);
            let ghost n = ls.len();
            while lints.len() > 0
                invariant
                    lints_view(lints@) == ls.skip(n - lints@.len()),
                    lints@.len() <= n,
                    n == ls.len(),
                    findings_view(all@) == before + tagged(name@, ls.take(n - lints@.len())),
                decreases lints@.len(),
            {
                let ghost done = n - lints@.len();
                let ghost prev = findings_view(all@);
                let ghost old_lints = lints@;
                let l = lints.remove(0);
                assert(lints@ =~= old_lints.drop_first());
                assert(lints_view(lints@) =~= lints_view(old_lints).drop_first());
                assert(ls[done] == l@) by {
                    assert(ls.skip(done)[0] == ls[done]);
                }
                all.push(Finding { rule: name, lint: l });
                assert(lints_view(lints@) =~= ls.skip(n - lints@.len()));
                assert(ls.take(done + 1) =~= ls.take(done).push(ls[done]));
                assert(findings_view(all@) =~= prev.push((name@, l@)));
                assert(tagged(name@, ls.take(done + 1)) =~= tagged(name@, ls.take(done)).push((name@, ls[done])));
            }
            assert(ls.take(n as int) =~= ls);
        }
        k = k + 1;
    }
    let ghost xs = findings_view(all@);
    let ghost n = xs.len();
    let mut sorted: Vec<Finding> = Vec::new();
    assert(xs.take(0) =~= Seq::<FindingSpec>::empty());
    assert(findings_view(sorted@) =~= Seq::<FindingSpec>::empty());
    while all.len() > 0
        invariant
            n == xs.len(),
            all@.len() <= n,
            findings_view(all@) == xs.skip(n - all@.len()),
            findings_view(sorted@) == sorted_by_key(xs.take(n - all@.len())),
        decreases all@.len(),
    {
        let ghost done = n - all@.len();
        let ghost old_all = all@;
        let f = all.remove(0);
        assert(all@ =~= old_all.drop_first());
        assert(findings_view(all@) =~= findings_view(old_all).drop_first());
        assert(xs[done] == f@) by {
            assert(xs.skip(done)[0] == xs[done]);
        }
        assert(findings_view(all@) =~= xs.skip(n - all@.len()));
        assert(xs.take(done + 1).drop_last() =~= xs.take(done));
        insert_finding(&mut sorted, f);
    }
    assert(xs.take(n as int) =~= xs);
    sorted
}

/// The pieces of `s` between characters that are not alphanumeric, empty pieces included, as
/// `str::split` gives them.
pub open spec fn pieces(s: Seq<char>) -> Seq<Seq<char>>
    decreases s.len(),
{
    if s.len() == 0 {
        seq![Seq::empty()]
    } else {
        let p = pieces(s.drop_last());
        if text::alphanumeric(s.last()) {
            p.update(p.len() - 1, p.last().push(s.last()))
        } else {
            p.push(Seq::empty())
        }
    }
}

proof fn lemma_pieces_nonempty(s: Seq<char>)
    ensures
        pieces(s).len() >= 1,
    decreases s.len(),
{
    if s.len() > 0 {
        lemma_pieces_nonempty(s.drop_last());
    }
}

/// The pieces lowercased, less the empty ones.
pub open spec fn kept(ps: Seq<Seq<char>>) -> Seq<Seq<char>>
    decreases ps.len(),
{
    if ps.len() == 0 {
        Seq::empty()
    } else if text::lowercase(ps.last()).len() > 0 {
        kept(ps.drop_last()).push(text::lowercase(ps.last()))
    } else {
        kept(ps.drop_last())
    }
}

/// The identifiers that occur inside code among the first `n` tokens, in order.
pub open spec fn code_words_upto(doc: Document, n: int) -> Seq<Seq<char>>
    decreases n,
{
    if n <= 0 {
        Seq::empty()
    } else if doc.tokens@[n - 1].kind is Unlintable {
        code_words_upto(doc, n - 1) + kept(pieces(doc.text(n - 1)))
    } else {
        code_words_upto(doc, n - 1)
    }
}

/// What `--suggest-glossary` reads of one document: the out-of-vocabulary words, one entry per
/// occurrence with the form to declare and the part of speech it is used in, and the
/// identifiers that occur inside code.
pub struct Vocabulary {
    pub unknown: Vec<(String, upos::Upos)>,
    /// Weak evidence that a word names a software artifact rather than being ordinary English:
    /// enough to annotate a list a human edits, not enough to filter one.
    pub in_code: strmap::StrMap<()>,
}

proof fn lemma_kept_one(p: Seq<char>)
    ensures
        kept(seq![p]) == (if text::lowercase(p).len() > 0 { seq![text::lowercase(p)] } else { Seq::<Seq<char>>::empty() }),
{
    let one = seq![p];
    assert(one.drop_last() =~= Seq::<Seq<char>>::empty());
    assert(one.last() == p);
    assert(kept(one.drop_last()) == Seq::<Seq<char>>::empty());
    if text::lowercase(p).len() > 0 {
        assert(kept(one) =~= seq![text::lowercase(p)]);
    } else {
        assert(kept(one) =~= Seq::<Seq<char>>::empty());
    }
}

proof fn lemma_kept_push(ps: Seq<Seq<char>>, p: Seq<char>)
    ensures
        kept(ps.push(p)).to_set() == kept(ps).to_set().union(kept(seq![p]).to_set()),
{
    assert(ps.push(p).drop_last() =~= ps);
    lemma_kept_one(p);
    let a = kept(ps.push(p));
    let b = kept(ps);
    if text::lowercase(p).len() > 0 {
        assert(a == b.push(text::lowercase(p)));
        assert(a.to_set() =~= b.to_set().union(kept(seq![p]).to_set())) by {
            assert forall|w: Seq<char>| a.to_set().contains(w) <==> b.to_set().union(kept(seq![p]).to_set()).contains(w) by {
                if a.contains(w) {
                    let j = choose|j: int| 0 <= j < a.len() && a[j] == w;
                    if j < b.len() {
                        assert(b[j] == w);
                    } else {
                        assert(kept(seq![p])[0] == w);
                    }
                }
                if b.contains(w) {
                    let j = choose|j: int| 0 <= j < b.len() && b[j] == w;
                    assert(a[j] == w);
                }
                if kept(seq![p]).contains(w) {
                    assert(kept(seq![p])[0] == w);
                    assert(a[b.len() as int] == w);
                }
            }
        }
    } else {
        assert(a == b);
        assert(a.to_set() =~= b.to_set().union(kept(seq![p]).to_set()));
    }
}

fn add_kept(set: &mut strmap::StrMap<()>, piece: &Vec<char>)
    ensures
        final(set)@.dom() == old(set)@.dom().union(kept(seq![piece@]).to_set()),
{
    let s = text::string_from(piece);
    let lower = text::to_lowercase(s.as_str());
    proof {
        lemma_kept_one(piece@);
    }
    if !lower.as_str().is_empty() {
        let ghost lv = lower@;
        set.insert(lower, ());
        assert(set@.dom() =~= old(set)@.dom().union(kept(seq![piece@]).to_set())) by {
            assert(kept(seq![piece@]) == seq![lv]);
            assert(seq![lv].to_set() =~= set![lv]) by {
                assert(seq![lv][0] == lv);
            }
        }
    } else {
        assert(kept(seq![piece@]) =~= Seq::<Seq<char>>::empty());
        assert(set@.dom() =~= old(set)@.dom().union(kept(seq![piece@]).to_set()));
    }
}

proof fn lemma_concat_to_set(a: Seq<Seq<char>>, b: Seq<Seq<char>>)
    ensures
        (a + b).to_set() == a.to_set().union(b.to_set()),
{
    assert forall|w: Seq<char>| (a + b).to_set().contains(w) <==> a.to_set().union(b.to_set()).contains(w) by {
        if (a + b).contains(w) {
            let j = choose|j: int| 0 <= j < (a + b).len() && (a + b)[j] == w;
            if j < a.len() {
                assert(a[j] == w);
            } else {
                assert(b[j - a.len()] == w);
            }
        }
        if a.contains(w) {
            let j = choose|j: int| 0 <= j < a.len() && a[j] == w;
            assert((a + b)[j] == w);
        }
        if b.contains(w) {
            let j = choose|j: int| 0 <= j < b.len() && b[j] == w;
            assert((a + b)[j + a.len()] == w);
        }
    }
    assert((a + b).to_set() =~= a.to_set().union(b.to_set()));
}

pub open spec fn chars_views(v: Seq<Vec<char>>) -> Seq<Seq<char>> {
    v.map_values(|x: Vec<char>| x@)
}

/// The pieces of `t` between characters that are not alphanumeric.
fn split_pieces(t: &Vec<char>) -> (ps: Vec<Vec<char>>)
    ensures
        chars_views(ps@) == pieces(t@),
{
    let mut done: Vec<Vec<char>> = Vec::new();
    let mut cur: Vec<char> = Vec::new();
    let mut k: usize = 0;
    assert(t@.take(0) =~= Seq::<char>::empty());
    assert(chars_views(done@).push(cur@) =~= pieces(t@.take(0)));
    while k < t.len()
        invariant
            k <= t@.len(),
            chars_views(done@).push(cur@) == pieces(t@.take(k as int)),
        decreases t@.len() - k,
    {
        let c = t[k];
        let ghost before = chars_views(done@).push(cur@);
        assert(t@.take(k + 1).drop_last() =~= t@.take(k as int));
        assert(t@.take(k + 1).last() == c);
        if text::is_alphanumeric(c) {
            cur.push(c);
            assert(chars_views(done@).push(cur@) =~= before.update(before.len() - 1, before.last().push(c)));
        } else {
            let finished = cur;
            done.push(finished);
            cur = Vec::new();
            assert(chars_views(done@).push(cur@) =~= before.push(Seq::<char>::empty()));
        }
        k = k + 1;
    }
    assert(t@.take(t@.len() as int) =~= t@);
    done.push(cur);
    assert(chars_views(done@) =~= pieces(t@));
    done
}

/// Adds the kept pieces to `set`.
fn add_kept_all(set: &mut strmap::StrMap<()>, ps: &Vec<Vec<char>>)
    ensures
        final(set)@.dom() == old(set)@.dom().union(kept(chars_views(ps@)).to_set()),
{
    let ghost start = set@.dom();
    let ghost pv = chars_views(ps@);
    let mut j: usize = 0;
    assert(pv.take(0) =~= Seq::<Seq<char>>::empty());
    assert(set@.dom() =~= start.union(kept(pv.take(0)).to_set()));
    while j < ps.len()
        invariant
            j <= ps@.len(),
            pv == chars_views(ps@),
            set@.dom() == start.union(kept(pv.take(j as int)).to_set()),
        decreases ps@.len() - j,
    {
        add_kept(set, &ps[j]);
        assert(pv.take(j + 1) =~= pv.take(j as int).push(ps@[j as int]@));
        proof {
            lemma_kept_push(pv.take(j as int), ps@[j as int]@);
        }
        assert(set@.dom() =~= start.union(kept(pv.take(j + 1)).to_set()));
        j = j + 1;
    }
    assert(pv.take(ps@.len() as int) =~= pv);
}

/// The out-of-vocabulary words of one document, one entry per occurrence, and the identifiers
/// that occur inside its code.
pub fn vocabulary(doc: &Document, ctx: &Ctx) -> (v: Vocabulary)
    requires
        doc.wf(),
    ensures
        v.unknown@.map_values(|e: (String, upos::Upos)| (e.0@, e.1)) == rules::dictionary::unknown_entries(
            *doc,
            *ctx,
            rules::prose_words(*doc),
        ).map_values(|e: (int, Seq<char>, Seq<char>, upos::Upos)| (e.2, e.3)),
        v.in_code@.dom() == code_words_upto(*doc, doc.tokens@.len() as int).to_set(),
{
    let tags = Tags::new(doc);
    let found = rules::dictionary::unknown(doc, &tags, ctx);
    let ghost fv = rules::dictionary::unknown_view(found@);
    let mut unknown: Vec<(String, upos::Upos)> = Vec::new();
    let mut k: usize = 0;
    while k < found.len()
        invariant
            k <= found@.len(),
            fv == rules::dictionary::unknown_view(found@),
            unknown@.len() == k,
            forall|j: int| 0 <= j < k ==> (#[trigger] unknown@[j]).0@ == fv[j].2 && unknown@[j].1 == fv[j].3,
        decreases found@.len() - k,
    {
        unknown.push((found[k].2.clone(), found[k].3));
        k = k + 1;
    }
    assert(unknown@.map_values(|e: (String, upos::Upos)| (e.0@, e.1)) =~= fv.map_values(
        |e: (int, Seq<char>, Seq<char>, upos::Upos)| (e.2, e.3),
    ));
    let mut in_code: strmap::StrMap<()> = strmap::StrMap::new();
    let mut i: usize = 0;
    assert(in_code@.dom() =~= code_words_upto(*doc, 0).to_set());
    while i < doc.tokens.len()
        invariant
            doc.wf(),
            i <= doc.tokens@.len(),
            in_code@.dom() == code_words_upto(*doc, i as int).to_set(),
        decreases doc.tokens@.len() - i,
    {
        if matches!(doc.tokens[i].kind, document::TokenKind::Unlintable) {
            let t = doc.token_text(i);
            let ghost before = code_words_upto(*doc, i as int);
            let ps = split_pieces(&t);
            add_kept_all(&mut in_code, &ps);
            let ghost after = code_words_upto(*doc, i + 1);
            assert(after == before + kept(pieces(t@)));
            proof {
                lemma_concat_to_set(before, kept(pieces(t@)));
            }
        }
        i = i + 1;
    }
    Vocabulary { unknown, in_code }
}

} // verus!
