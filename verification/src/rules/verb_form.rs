//! Verb forms: the passive voice, compound tenses and -ing forms used as verbs.
use vstd::prelude::*;
use crate::ctx::Ctx;
use crate::document::{Document, Span, TokenKind, meta_of, meta};
use crate::lint::{Lint, LintKind, LintSpec, plain, plain_lint, lints_view};
use crate::rules::{tags_for, prose_words, prose_word_indices};
use crate::tags::{Tags, tags_of, ints};
use crate::text::{str_eq, push_str, push_chars, string_from};
use crate::upos::Upos;

verus! {

/// The forms of `be`.
pub open spec fn is_be(w: Seq<char>) -> bool {
    w == "be"@ || w == "am"@ || w == "is"@ || w == "are"@ || w == "was"@ || w == "were"@ || w == "been"@
        || w == "being"@
}

/// The forms of `have`.
pub open spec fn is_have(w: Seq<char>) -> bool {
    w == "have"@ || w == "has"@ || w == "had"@
}

/// Negation sits between the auxiliary and its verb without breaking the pair.
pub open spec fn is_negation(w: Seq<char>) -> bool {
    w == "not"@ || w == "never"@
}

pub fn be_form(w: &str) -> (b: bool)
    ensures
        b == is_be(w@),
{
    str_eq(w, "be") || str_eq(w, "am") || str_eq(w, "is") || str_eq(w, "are") || str_eq(w, "was") || str_eq(w, "were")
        || str_eq(w, "been") || str_eq(w, "being")
}

pub fn have_form(w: &str) -> (b: bool)
    ensures
        b == is_have(w@),
{
    str_eq(w, "have") || str_eq(w, "has") || str_eq(w, "had")
}

pub fn negation(w: &str) -> (b: bool)
    ensures
        b == is_negation(w@),
{
    str_eq(w, "not") || str_eq(w, "never")
}

pub open spec fn is_progressive_kind(k: TokenKind) -> bool {
    match meta_of(k) {
        Some(m) => m.verb_progressive,
        None => false,
    }
}

pub fn is_progressive(k: &TokenKind) -> (b: bool)
    ensures
        b == is_progressive_kind(*k),
{
    match meta(k) {
        Some(m) => m.verb_progressive,
        None => false,
    }
}

/// The first of the words from `j` on that is not a negation.
pub open spec fn skip_negation(doc: Document, ws: Seq<int>, j: int) -> int
    decreases ws.len() - j,
{
    if 0 <= j < ws.len() && is_negation(doc.lower(ws[j])) {
        skip_negation(doc, ws, j + 1)
    } else {
        j
    }
}

pub open spec fn is_auxiliary(w: Seq<char>, have: bool) -> bool {
    if have { is_have(w) } else { is_be(w) }
}

/// The auxiliary at word `k` with the verb it governs, if there is one. Only negation may sit
/// between the two, so `is to run` and `has to be` do not read as one construction.
pub open spec fn pair_at(doc: Document, pos: Seq<Option<Upos>>, ws: Seq<int>, k: int, have: bool) -> Option<(int, int)> {
    let idx = ws[k];
    if pos[idx] != Some(Upos::AUX) || !is_auxiliary(doc.lower(idx), have) {
        None
    } else {
        let j = skip_negation(doc, ws, k + 1);
        if j < ws.len() && pos[ws[j]] == Some(Upos::VERB) {
            Some((idx, ws[j]))
        } else {
            None
        }
    }
}

pub open spec fn aux_pairs_upto(doc: Document, pos: Seq<Option<Upos>>, ws: Seq<int>, n: int, have: bool) -> Seq<(int, int)>
    decreases n,
{
    if n <= 0 {
        Seq::empty()
    } else {
        match pair_at(doc, pos, ws, n - 1, have) {
            Some(p) => aux_pairs_upto(doc, pos, ws, n - 1, have).push(p),
            None => aux_pairs_upto(doc, pos, ws, n - 1, have),
        }
    }
}

/// The (auxiliary, verb) pairs of a document, by token index, in order.
pub open spec fn aux_pairs(doc: Document, have: bool) -> Seq<(int, int)> {
    let ws = prose_words(doc);
    aux_pairs_upto(doc, tags_of(doc).0, ws, ws.len() as int, have)
}

pub open spec fn pair_span(doc: Document, p: (int, int)) -> Span {
    Span { start: doc.tokens@[p.0].span.start, end: doc.tokens@[p.1].span.end }
}

pub open spec fn passive_message(aux: Seq<char>, verb: Seq<char>) -> Seq<char> {
    "Passive voice (`"@ + aux + " "@ + verb + "`). ASD-STE100 wants the active voice: name who or what does the action."@
}

pub open spec fn compound_message(aux: Seq<char>, verb: Seq<char>) -> Seq<char> {
    "Compound tense (`"@ + aux + " "@ + verb
        + "`). ASD-STE100 permits only the simple present, simple past and simple future."@
}

pub open spec fn passive_from(doc: Document, ps: Seq<(int, int)>) -> Seq<LintSpec>
    decreases ps.len(),
{
    if ps.len() == 0 {
        Seq::empty()
    } else if !is_progressive_kind(doc.tokens@[ps.last().1].kind) {
        passive_from(doc, ps.drop_last()).push(
            plain(pair_span(doc, ps.last()), LintKind::Style, passive_message(doc.text(ps.last().0), doc.text(ps.last().1))),
        )
    } else {
        passive_from(doc, ps.drop_last())
    }
}

pub open spec fn compound_from(doc: Document, ps: Seq<(int, int)>) -> Seq<LintSpec>
    decreases ps.len(),
{
    if ps.len() == 0 {
        Seq::empty()
    } else {
        compound_from(doc, ps.drop_last()).push(
            plain(pair_span(doc, ps.last()), LintKind::Style, compound_message(doc.text(ps.last().0), doc.text(ps.last().1))),
        )
    }
}

pub open spec fn ing_message(word: Seq<char>) -> Seq<char> {
    "`"@ + word + "` is an -ing form used as a verb. ASD-STE100 allows -ing words only inside a Technical Name."@
}

pub open spec fn ing_from(doc: Document, ws: Seq<int>) -> Seq<LintSpec>
    decreases ws.len(),
{
    if ws.len() == 0 {
        Seq::empty()
    } else if tags_of(doc).0[ws.last()] == Some(Upos::VERB) && is_progressive_kind(doc.tokens@[ws.last()].kind) {
        ing_from(doc, ws.drop_last()).push(plain(doc.tokens@[ws.last()].span, LintKind::Style, ing_message(doc.text(ws.last()))))
    } else {
        ing_from(doc, ws.drop_last())
    }
}

fn find_pairs(doc: &Document, tags: &Tags, have: bool) -> (v: Vec<(usize, usize)>)
    requires
        tags_for(*doc, *tags),
    ensures
        v@.map_values(|p: (usize, usize)| (p.0 as int, p.1 as int)) == aux_pairs(*doc, have),
        forall|j: int| 0 <= j < v@.len() ==> (#[trigger] v@[j]).0 < doc.tokens@.len() && v@[j].1 < doc.tokens@.len(),
{
    proof {
        crate::tags::cascade_moves_only_to_admitted_readings(*doc);
    }
    let words = prose_word_indices(doc, tags);
    let ghost ws = ints(words@);
    let ghost pos = tags_of(*doc).0;
    let mut v: Vec<(usize, usize)> = Vec::new();
    let mut i: usize = 0;
    while i < words.len()
        invariant
            tags_for(*doc, *tags),
            pos == tags_of(*doc).0,
            pos.len() == doc.tokens@.len(),
            ws == ints(words@),
            ws == prose_words(*doc),
            forall|j: int| 0 <= j < words@.len() ==> #[trigger] words@[j] < doc.tokens@.len(),
            forall|j: int| 0 <= j < v@.len() ==> (#[trigger] v@[j]).0 < doc.tokens@.len() && v@[j].1 < doc.tokens@.len(),
            i <= words@.len(),
            v@.map_values(|p: (usize, usize)| (p.0 as int, p.1 as int)) == aux_pairs_upto(*doc, pos, ws, i as int, have),
        decreases words@.len() - i,
    {
        let ghost before = v@;
        let idx = words[i];
        let lower = doc.token_lower(idx);
        let is_aux = if have { have_form(lower.as_str()) } else { be_form(lower.as_str()) };
        if tags.pos(idx) == Some(Upos::AUX) && is_aux {
            let mut j = i + 1;
            while j < words.len() && negation(doc.token_lower(words[j]).as_str())
                invariant
                    tags_for(*doc, *tags),
                    ws == ints(words@),
                    forall|x: int| 0 <= x < words@.len() ==> #[trigger] words@[x] < doc.tokens@.len(),
                    i < j <= words@.len(),
                    skip_negation(*doc, ws, j as int) == skip_negation(*doc, ws, i + 1),
                decreases words@.len() - j,
            {
                j = j + 1;
            }
            if j < words.len() && tags.pos(words[j]) == Some(Upos::VERB) {
                v.push((idx, words[j]));
                assert(v@.map_values(|p: (usize, usize)| (p.0 as int, p.1 as int)) =~= before.map_values(
                    |p: (usize, usize)| (p.0 as int, p.1 as int),
                ).push((idx as int, words@[j as int] as int)));
            }
        }
        i = i + 1;
    }
    v
}

fn pair_lint(doc: &Document, p: (usize, usize), lead: &str, tail: &str) -> (l: Lint)
    requires
        doc.wf(),
        p.0 < doc.tokens@.len(),
        p.1 < doc.tokens@.len(),
    ensures
        l@ == plain(pair_span(*doc, (p.0 as int, p.1 as int)), LintKind::Style, lead@ + doc.text(p.0 as int) + " "@ + doc.text(p.1 as int) + tail@),
{
    let mut m: Vec<char> = Vec::new();
    push_str(&mut m, lead);
    push_chars(&mut m, &doc.token_text(p.0));
    push_str(&mut m, " ");
    push_chars(&mut m, &doc.token_text(p.1));
    push_str(&mut m, tail);
    let span = Span { start: doc.tokens[p.0].span.start, end: doc.tokens[p.1].span.end };
    plain_lint(span, LintKind::Style, string_from(&m))
}

/// `passive-voice`: a form of `be` governing a verb that is not an -ing form.
pub fn passive(doc: &Document, tags: &Tags, _ctx: &Ctx) -> (v: Vec<Lint>)
    requires
        tags_for(*doc, *tags),
    ensures
        lints_view(v@) == passive_from(*doc, aux_pairs(*doc, false)),
{
    let pairs = find_pairs(doc, tags, false);
    let ghost ps = pairs@.map_values(|p: (usize, usize)| (p.0 as int, p.1 as int));
    let mut v: Vec<Lint> = Vec::new();
    let mut k: usize = 0;
    assert(ps.take(0) =~= Seq::<(int, int)>::empty());
    assert(lints_view(v@) =~= Seq::<LintSpec>::empty());
    while k < pairs.len()
        invariant
            doc.wf(),
            ps == pairs@.map_values(|p: (usize, usize)| (p.0 as int, p.1 as int)),
            forall|j: int| 0 <= j < pairs@.len() ==> (#[trigger] pairs@[j]).0 < doc.tokens@.len() && pairs@[j].1 < doc.tokens@.len(),
            k <= pairs@.len(),
            lints_view(v@) == passive_from(*doc, ps.take(k as int)),
        decreases pairs@.len() - k,
    {
        let ghost before = v@;
        assert(ps.take(k + 1).drop_last() =~= ps.take(k as int));
        assert(ps.take(k + 1).last() == (pairs@[k as int].0 as int, pairs@[k as int].1 as int));
        if !is_progressive(&doc.tokens[pairs[k].1].kind) {
            let l = pair_lint(
                doc,
                pairs[k],
                "Passive voice (`",
                "`). ASD-STE100 wants the active voice: name who or what does the action.",
            );
            v.push(l);
            assert(lints_view(v@) =~= lints_view(before).push(l@));
        }
        k = k + 1;
    }
    assert(ps.take(pairs@.len() as int) =~= ps);
    v
}

/// `compound-tense`: a form of `have` governing a verb.
pub fn compound_tense(doc: &Document, tags: &Tags, _ctx: &Ctx) -> (v: Vec<Lint>)
    requires
        tags_for(*doc, *tags),
    ensures
        lints_view(v@) == compound_from(*doc, aux_pairs(*doc, true)),
{
    let pairs = find_pairs(doc, tags, true);
    let ghost ps = pairs@.map_values(|p: (usize, usize)| (p.0 as int, p.1 as int));
    let mut v: Vec<Lint> = Vec::new();
    let mut k: usize = 0;
    assert(ps.take(0) =~= Seq::<(int, int)>::empty());
    assert(lints_view(v@) =~= Seq::<LintSpec>::empty());
    while k < pairs.len()
        invariant
            doc.wf(),
            ps == pairs@.map_values(|p: (usize, usize)| (p.0 as int, p.1 as int)),
            forall|j: int| 0 <= j < pairs@.len() ==> (#[trigger] pairs@[j]).0 < doc.tokens@.len() && pairs@[j].1 < doc.tokens@.len(),
            k <= pairs@.len(),
            lints_view(v@) == compound_from(*doc, ps.take(k as int)),
        decreases pairs@.len() - k,
    {
        let ghost before = v@;
        assert(ps.take(k + 1).drop_last() =~= ps.take(k as int));
        assert(ps.take(k + 1).last() == (pairs@[k as int].0 as int, pairs@[k as int].1 as int));
        let l = pair_lint(
            doc,
            pairs[k],
            "Compound tense (`",
            "`). ASD-STE100 permits only the simple present, simple past and simple future.",
        );
        v.push(l);
        assert(lints_view(v@) =~= lints_view(before).push(l@));
        k = k + 1;
    }
    assert(ps.take(pairs@.len() as int) =~= ps);
    v
}

/// `ing-verb`: an -ing form the cascade leaves as a verb.
pub fn ing_as_verb(doc: &Document, tags: &Tags, _ctx: &Ctx) -> (v: Vec<Lint>)
    requires
        tags_for(*doc, *tags),
    ensures
        lints_view(v@) == ing_from(*doc, prose_words(*doc)),
{
    proof {
        crate::tags::cascade_moves_only_to_admitted_readings(*doc);
    }
    let words = prose_word_indices(doc, tags);
    let ghost ws = ints(words@);
    let mut v: Vec<Lint> = Vec::new();
    let mut k: usize = 0;
    assert(ws.take(0) =~= Seq::<int>::empty());
    assert(lints_view(v@) =~= Seq::<LintSpec>::empty());
    while k < words.len()
        invariant
            tags_for(*doc, *tags),
            tags_of(*doc).0.len() == doc.tokens@.len(),
            ws == ints(words@),
            forall|j: int| 0 <= j < words@.len() ==> #[trigger] words@[j] < doc.tokens@.len(),
            k <= words@.len(),
            lints_view(v@) == ing_from(*doc, ws.take(k as int)),
        decreases words@.len() - k,
    {
        let ghost before = v@;
        assert(ws.take(k + 1).drop_last() =~= ws.take(k as int));
        assert(ws.take(k + 1).last() == words@[k as int] as int);
        let i = words[k];
        if tags.pos(i) == Some(Upos::VERB) && is_progressive(&doc.tokens[i].kind) {
            let mut m: Vec<char> = Vec::new();
            push_str(&mut m, "`");
            push_chars(&mut m, &doc.token_text(i));
            push_str(&mut m, "` is an -ing form used as a verb. ASD-STE100 allows -ing words only inside a Technical Name.");
            let l = plain_lint(doc.tokens[i].span, LintKind::Style, string_from(&m));
            assert(m@ =~= ing_message(doc.text(i as int)));
            v.push(l);
            assert(lints_view(v@) =~= lints_view(before).push(l@));
        }
        k = k + 1;
    }
    assert(ws.take(words@.len() as int) =~= ws);
    v
}

} // verus!
