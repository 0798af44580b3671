//! Contractions.
use vstd::prelude::*;
use crate::ctx::Ctx;
use crate::document::Document;
use crate::lint::{Lint, LintKind, LintSpec, plain, plain_lint, lints_view};
use crate::rules::{tags_for, prose_words, prose_word_indices};
use crate::tags::{Tags, ints};
use crate::text::{lowercase, to_lowercase, str_eq, string_from, push_str, push_chars};

verus! {

pub open spec fn is_apostrophe(c: char) -> bool {
    c == '\'' || c == '\u{2019}'
}

/// The position of the first apostrophe in `w` from `j` on, or `-1`.
pub open spec fn first_apostrophe(w: Seq<char>, j: int) -> int
    decreases w.len() - j,
{
    if j < 0 || j >= w.len() {
        -1
    } else if is_apostrophe(w[j]) {
        j
    } else {
        first_apostrophe(w, j + 1)
    }
}

/// `'s` is only a contraction after these; everywhere else it is a possessive.
pub open spec fn is_pronoun_stem(w: Seq<char>) -> bool {
    w == "it"@ || w == "he"@ || w == "she"@ || w == "that"@ || w == "this"@ || w == "there"@ || w == "here"@
        || w == "what"@ || w == "who"@ || w == "let"@
}

pub open spec fn is_contraction_suffix(w: Seq<char>) -> bool {
    w == "t"@ || w == "re"@ || w == "ve"@ || w == "ll"@ || w == "d"@ || w == "m"@
}

/// Whether a word is a contraction: split at its first apostrophe, the suffix is one of the
/// contracted forms, or `s` after a pronoun.
pub open spec fn is_contracted(w: Seq<char>) -> bool {
    let j = first_apostrophe(w, 0);
    j >= 0 && {
        let stem = lowercase(w.take(j));
        let suffix = lowercase(w.skip(j + 1));
        is_contraction_suffix(suffix) || (suffix == "s"@ && is_pronoun_stem(stem))
    }
}

pub open spec fn contraction_message(w: Seq<char>) -> Seq<char> {
    "`"@ + w + "` is a contraction. ASD-STE100 wants the words written out in full."@
}

pub open spec fn contractions_from(doc: Document, ws: Seq<int>) -> Seq<LintSpec>
    decreases ws.len(),
{
    if ws.len() == 0 {
        Seq::empty()
    } else if is_contracted(doc.text(ws.last())) {
        contractions_from(doc, ws.drop_last()).push(
            plain(doc.tokens@[ws.last()].span, LintKind::Style, contraction_message(doc.text(ws.last()))),
        )
    } else {
        contractions_from(doc, ws.drop_last())
    }
}

fn find_apostrophe(w: &Vec<char>) -> (j: Option<usize>)
    ensures
        match j {
            Some(j) => j < w@.len() && first_apostrophe(w@, 0) == j,
            None => first_apostrophe(w@, 0) == -1,
        },
{
    let mut k: usize = 0;
    while k < w.len()
        invariant
            k <= w@.len(),
            first_apostrophe(w@, k as int) == first_apostrophe(w@, 0),
        decreases w@.len() - k,
    {
        if w[k] == '\'' || w[k] == '\u{2019}' {
            return Some(k);
        }
        k = k + 1;
    }
    None
}

fn slice_string(w: &Vec<char>, from: usize, to: usize) -> (s: String)
    requires
        from <= to <= w@.len(),
    ensures
        s@ == w@.subrange(from as int, to as int),
{
    let mut out: Vec<char> = Vec::new();
    let mut k = from;
    while k < to
        invariant
            from <= k <= to <= w@.len(),
            out@ == w@.subrange(from as int, k as int),
        decreases to - k,
    {
        out.push(w[k]);
        k = k + 1;
        assert(out@ =~= w@.subrange(from as int, k as int));
    }
    string_from(&out)
}

fn contracted(w: &Vec<char>) -> (b: bool)
    ensures
        b == is_contracted(w@),
{
    let j = match find_apostrophe(w) {
        Some(j) => j,
        None => return false,
    };
    let n = w.len();
    assert(j < n);
    let stem_raw = slice_string(w, 0, j);
    let suffix_raw = slice_string(w, j + 1, n);
    assert(w@.take(j as int) =~= w@.subrange(0, j as int));
    assert(w@.skip(j + 1) =~= w@.subrange(j + 1, w@.len() as int));
    let stem = to_lowercase(stem_raw.as_str());
    let suffix = to_lowercase(suffix_raw.as_str());
    let sx = suffix.as_str();
    if str_eq(sx, "t") || str_eq(sx, "re") || str_eq(sx, "ve") || str_eq(sx, "ll") || str_eq(sx, "d") || str_eq(sx, "m") {
        return true;
    }
    if !str_eq(sx, "s") {
        return false;
    }
    let st = stem.as_str();
    str_eq(st, "it") || str_eq(st, "he") || str_eq(st, "she") || str_eq(st, "that") || str_eq(st, "this") || str_eq(st, "there")
        || str_eq(st, "here") || str_eq(st, "what") || str_eq(st, "who") || str_eq(st, "let")
}

/// `contraction`: a word written with an apostrophe for left-out letters.
pub fn contraction(doc: &Document, tags: &Tags, _ctx: &Ctx) -> (v: Vec<Lint>)
    requires
        tags_for(*doc, *tags),
    ensures
        lints_view(v@) == contractions_from(*doc, prose_words(*doc)),
{
    let words = prose_word_indices(doc, tags);
    let ghost ws = ints(words@);
    let mut v: Vec<Lint> = Vec::new();
    let mut k: usize = 0;
    assert(ws.take(0) =~= Seq::<int>::empty());
    assert(lints_view(v@) =~= Seq::<LintSpec>::empty());
    while k < words.len()
        invariant
            tags_for(*doc, *tags),
            ws == ints(words@),
            forall|j: int| 0 <= j < words@.len() ==> #[trigger] words@[j] < doc.tokens@.len(),
            k <= words@.len(),
            lints_view(v@) == contractions_from(*doc, ws.take(k as int)),
        decreases words@.len() - k,
    {
        let ghost before = v@;
        assert(ws.take(k + 1).drop_last() =~= ws.take(k as int));
        assert(ws.take(k + 1).last() == words@[k as int] as int);
        let i = words[k];
        let w = doc.token_text(i);
        if contracted(&w) {
            let mut m: Vec<char> = Vec::new();
            push_str(&mut m, "`");
            push_chars(&mut m, &w);
            push_str(&mut m, "` is a contraction. ASD-STE100 wants the words written out in full.");
            assert(m@ =~= contraction_message(w@));
            let l = plain_lint(doc.tokens[i].span, LintKind::Style, string_from(&m));
            v.push(l);
            assert(lints_view(v@) =~= lints_view(before).push(l@));
        }
        k = k + 1;
    }
    assert(ws.take(words@.len() as int) =~= ws);
    v
}

} // verus!
