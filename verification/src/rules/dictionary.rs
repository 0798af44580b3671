//! ASD-STE100 is a whitelist: the approved words, plus the Technical Names and Technical Verbs
//! the project declares. openSTE ships both halves, so a word with no row at all is out of
//! vocabulary: that is `unknown-word`, the arm that makes the check a whitelist.
use vstd::prelude::*;
use crate::ctx::Ctx;
use crate::document::{Document, TokenKind, WordMeta, meta_of, is_past_participle_kind, meta, is_past_participle};
use crate::glossary::{glossary_allows, Terms};
use crate::rules::tags_for;
use crate::tags::{Tags, TagState, tags_of};
use crate::text::{lowercase, to_lowercase, str_eq};
use crate::upos::Upos;
use crate::wordset::{Entry, is_equivalent, is_content_pos, equivalent, is_content, description};
use crate::lint::{Lint, LintKind, LintSpec, plain, plain_lint, strings_view, lints_view};
use crate::rules::{prose_words, prose_word_indices};
use crate::tags::ints;
use crate::text::{push_str, chars_of, string_from};
use crate::wordset::describe;

verus! {

/// The three verdicts the dictionary rules share, over character sequences.
pub enum VerdictSpec {
    Unapproved { word: Seq<char>, row: Seq<char>, used: Upos },
    WrongPos { word: Seq<char>, approved: Upos, used: Upos },
    /// `base` is the form to put in the glossary: one entry there covers every inflection.
    Unknown { word: Seq<char>, base: Seq<char>, used: Upos },
}

pub enum Verdict {
    Unapproved { word: String, row: String, used: Upos },
    WrongPos { word: String, approved: Upos, used: Upos },
    Unknown { word: String, base: String, used: Upos },
}

impl View for Verdict {
    type V = VerdictSpec;

    open spec fn view(&self) -> VerdictSpec {
        match self {
            Verdict::Unapproved { word, row, used } => VerdictSpec::Unapproved { word: word@, row: row@, used: *used },
            Verdict::WrongPos { word, approved, used } => VerdictSpec::WrongPos { word: word@, approved: *approved, used: *used },
            Verdict::Unknown { word, base, used } => VerdictSpec::Unknown { word: word@, base: base@, used: *used },
        }
    }
}

pub open spec fn opt_string_view(o: Option<String>) -> Option<Seq<char>> {
    match o {
        Some(s) => Some(s@),
        None => None,
    }
}

/// The dictionary form of a word: the entry it is derived from, lowercased, or else the lemma of
/// an irregular preterite, or else the singular of an irregular plural. The derivation is
/// derivational as well as inflectional (`currently` from `current`).
pub open spec fn lemma_of(k: TokenKind) -> Option<Seq<char>> {
    match meta_of(k) {
        None => None,
        Some(m) => match m.derived_from {
            Some(d) => match d {
                Some(w) => Some(lowercase(w@)),
                None => None,
            },
            None => match m.irregular_preterite_of {
                Some(l) => Some(l@),
                None => opt_string_view(m.irregular_plural_of),
            },
        },
    }
}

/// The form flags of an inflection.
pub open spec fn inflected(k: TokenKind) -> bool {
    is_past_participle_kind(k) || match meta_of(k) {
        Some(m) => m.verb_past || m.verb_progressive || m.verb_third_person || m.non_singular_noun,
        None => false,
    }
}

/// openSTE has one row per lemma and no inflections, so an inflection reads its lemma's row,
/// but only where the token's own form flags agree with the row's part of speech.
pub open spec fn inflected_row(rows: Map<Seq<char>, Entry>, k: TokenKind, lemma: Option<Seq<char>>) -> Option<(Seq<char>, Entry)> {
    match (meta_of(k), lemma) {
        (Some(m), Some(l)) => if rows.contains_key(l) {
            let e = rows[l];
            let agrees = match e.pos {
                Some(Upos::VERB) => m.verb_past || m.verb_progressive || m.verb_third_person,
                Some(Upos::NOUN) => m.non_singular_noun,
                _ => false,
            };
            if agrees { Some((l, e)) } else { None }
        } else {
            None
        },
        _ => None,
    }
}

/// One walk of the cascade the three dictionary rules share, for token `i`.
pub open spec fn verdict_of(doc: Document, st: TagState, g: (Terms, Terms), rows: Map<Seq<char>, Entry>, i: int) -> Option<VerdictSpec> {
    if st.1[i] {
        None
    } else {
        match st.0[i] {
            None => None,
            Some(used) => {
                let k = doc.tokens@[i].kind;
                let word = doc.lower(i);
                let lemma = lemma_of(k);
                if glossary_allows(g, word, used) || (lemma is Some && glossary_allows(g, lemma->0, used)) {
                    None
                } else {
                    let row = if rows.contains_key(word) { Some((word, rows[word])) } else { inflected_row(rows, k, lemma) };
                    match row {
                        None => if lemma is Some && rows.contains_key(lemma->0) {
                            // A lemma row the form flags rejected still proves the word is
                            // vocabulary: undecided is not unknown.
                            None
                        } else if lemma is None && inflected(k) {
                            // An inflection that could not be reduced says nothing.
                            None
                        } else {
                            let base = if inflected(k) { lemma->0 } else { word };
                            // A proper noun, a numeral or a symbol is not a vocabulary violation.
                            if is_content_pos(used) { Some(VerdictSpec::Unknown { word, base, used }) } else { None }
                        },
                        Some((r, e)) => match e.pos {
                            None => None,
                            Some(approved) => if !e.approved && is_equivalent(used, approved) {
                                Some(VerdictSpec::Unapproved { word, row: r, used })
                            } else if e.approved && !is_equivalent(used, approved) && is_content_pos(used) && r == word {
                                // Only on the surface row: an inflection's part of speech is its
                                // lemma's.
                                Some(VerdictSpec::WrongPos { word, approved, used })
                            } else {
                                None
                            },
                        },
                    }
                }
            },
        }
    }
}

pub open spec fn ctx_verdict(doc: Document, ctx: Ctx, i: int) -> Option<VerdictSpec> {
    verdict_of(doc, tags_of(doc), ctx.glossary@, ctx.wordset.rows(), i)
}

fn lemma(k: &TokenKind) -> (l: Option<String>)
    ensures
        opt_string_view(l) == lemma_of(*k),
{
    let m = match meta(k) {
        Some(m) => m,
        None => return None,
    };
    match &m.derived_from {
        Some(d) => match d {
            Some(w) => Some(to_lowercase(w.as_str())),
            None => None,
        },
        None => match &m.irregular_preterite_of {
            Some(l) => Some(l.clone()),
            None => match &m.irregular_plural_of {
                Some(s) => Some(s.clone()),
                None => None,
            },
        },
    }
}

fn is_inflected(k: &TokenKind) -> (b: bool)
    ensures
        b == inflected(*k),
{
    is_past_participle(k) || match meta(k) {
        Some(m) => m.verb_past || m.verb_progressive || m.verb_third_person || m.non_singular_noun,
        None => false,
    }
}

fn find_inflected_row(ctx: &Ctx, k: &TokenKind, lemma: &Option<String>) -> (r: Option<(String, Entry)>)
    ensures
        match (r, inflected_row(ctx.wordset.rows(), *k, opt_string_view(*lemma))) {
            (Some((w, e)), Some((sw, se))) => w@ == sw && e == se,
            (None, None) => true,
            _ => false,
        },
{
    let m = match meta(k) {
        Some(m) => m,
        None => return None,
    };
    let l = match lemma {
        Some(l) => l,
        None => return None,
    };
    let e = match ctx.wordset.get(l.as_str()) {
        Some(e) => e,
        None => return None,
    };
    let agrees = match e.pos {
        Some(Upos::VERB) => m.verb_past || m.verb_progressive || m.verb_third_person,
        Some(Upos::NOUN) => m.non_singular_noun,
        _ => false,
    };
    if agrees {
        Some((l.clone(), e))
    } else {
        None
    }
}

/// The verdict of the dictionary rules on token `i`.
pub fn verdict(doc: &Document, tags: &Tags, ctx: &Ctx, i: usize) -> (v: Option<Verdict>)
    requires
        tags_for(*doc, *tags),
        i < doc.tokens@.len(),
    ensures
        match (v, ctx_verdict(*doc, *ctx, i as int)) {
            (Some(x), Some(y)) => x@ == y,
            (None, None) => true,
            _ => false,
        },
{
    proof {
        crate::tags::cascade_moves_only_to_admitted_readings(*doc);
    }
    if tags.immune(i) {
        return None;
    }
    let used = match tags.pos(i) {
        Some(p) => p,
        None => return None,
    };
    let k = &doc.tokens[i].kind;
    let word = doc.token_lower(i);
    let lemma = lemma(k);
    let lemma_allowed = match &lemma {
        Some(l) => ctx.glossary.allows(l.as_str(), used),
        None => false,
    };
    if ctx.glossary.allows(word.as_str(), used) || lemma_allowed {
        return None;
    }
    let row = match ctx.wordset.get(word.as_str()) {
        Some(e) => Some((word.clone(), e)),
        None => find_inflected_row(ctx, k, &lemma),
    };
    match row {
        None => {
            let lemma_known = match &lemma {
                Some(l) => ctx.wordset.get(l.as_str()).is_some(),
                None => false,
            };
            if lemma_known {
                return None;
            }
            let infl = is_inflected(k);
            if lemma.is_none() && infl {
                return None;
            }
            let base = if infl {
                match lemma {
                    Some(l) => l,
                    None => word.clone(),
                }
            } else {
                word.clone()
            };
            if is_content(used) {
                Some(Verdict::Unknown { word, base, used })
            } else {
                None
            }
        },
        Some((r, e)) => {
            let approved = match e.pos {
                Some(p) => p,
                None => return None,
            };
            let eq = equivalent(used, approved);
            if !e.approved && eq {
                Some(Verdict::Unapproved { word, row: r, used })
            } else if e.approved && !eq && is_content(used) && str_eq(r.as_str(), word.as_str()) {
                Some(Verdict::WrongPos { word, approved, used })
            } else {
                None
            }
        },
    }
}

/// `base` joined by `sep`.
pub open spec fn join(list: Seq<Seq<char>>, sep: Seq<char>) -> Seq<char>
    decreases list.len(),
{
    if list.len() == 0 {
        Seq::empty()
    } else if list.len() == 1 {
        list[0]
    } else {
        join(list.drop_last(), sep) + sep + list.last()
    }
}

/// The replacements for a row, less those equal to the row itself: an alternative equal to the
/// word is how the wordlist says "approved, but in another part of speech".
pub open spec fn other_alternatives(alts: Seq<String>, row: Seq<char>) -> Seq<Seq<char>>
    decreases alts.len(),
{
    if alts.len() == 0 {
        Seq::empty()
    } else if lowercase(alts.last()@) != row {
        other_alternatives(alts.drop_last(), row).push(alts.last()@)
    } else {
        other_alternatives(alts.drop_last(), row)
    }
}

/// The alternatives that are single words: the others are whole sentences of advice, worth
/// reading and not applying.
pub open spec fn single_words(alts: Seq<Seq<char>>) -> Seq<Seq<char>>
    decreases alts.len(),
{
    if alts.len() == 0 {
        Seq::empty()
    } else if !alts.last().contains(' ') {
        single_words(alts.drop_last()).push(alts.last())
    } else {
        single_words(alts.drop_last())
    }
}

pub open spec fn named(word: Seq<char>, row: Seq<char>) -> Seq<char> {
    if row == word {
        "`"@ + word + "`"@
    } else {
        "`"@ + word + "` (`"@ + row + "`)"@
    }
}

pub open spec fn unapproved_message(word: Seq<char>, row: Seq<char>, used: Upos, alts: Seq<Seq<char>>) -> Seq<char> {
    if alts.len() == 0 {
        named(word, row) + " is not approved as "@ + description(used)
            + "; ASD-STE100 approves it only in another part of speech."@
    } else {
        named(word, row) + " is not approved as "@ + description(used) + "; use "@ + join(alts, "; "@) + "."@
    }
}

pub open spec fn wrong_pos_message(word: Seq<char>, approved: Upos, used: Upos) -> Seq<char> {
    "`"@ + word + "` is approved only as "@ + description(approved) + ", but is used here as "@ + description(used)
        + ". Add it to the glossary if it is a Technical Name or Technical Verb."@
}

pub open spec fn unknown_message(word: Seq<char>) -> Seq<char> {
    "`"@ + word
        + "` is not in the ASD-STE100 approved vocabulary. Add it to `docs/glossary.nix` if it is a Technical Name or Technical Verb."@
}

/// The lint of `unapproved-word` for token `i`, if its verdict is that. Its suggestions are the
/// approved alternatives as the wordlist writes them ("computer"), not yet in the case of the
/// replaced word ("Computer" for "Computer"): matching the case is Harper's
/// `Suggestion::replace_with_match_case_str`, which the front end applies.
pub open spec fn unapproved_lint(doc: Document, ctx: Ctx, i: int) -> Option<LintSpec> {
    match ctx_verdict(doc, ctx, i) {
        Some(VerdictSpec::Unapproved { word, row, used }) => {
            let table = ctx.wordset.alternatives_of();
            let alts = other_alternatives(if table.contains_key(row) { table[row]@ } else { Seq::empty() }, row);
            Some(LintSpec {
                span: doc.tokens@[i].span,
                kind: LintKind::WordChoice,
                message: unapproved_message(word, row, used, alts),
                suggestions: single_words(alts),
            })
        },
        _ => None,
    }
}

pub open spec fn wrong_pos_lint(doc: Document, ctx: Ctx, i: int) -> Option<LintSpec> {
    match ctx_verdict(doc, ctx, i) {
        Some(VerdictSpec::WrongPos { word, approved, used }) => Some(
            plain(doc.tokens@[i].span, LintKind::Usage, wrong_pos_message(word, approved, used)),
        ),
        _ => None,
    }
}

pub open spec fn unknown_lint(doc: Document, ctx: Ctx, i: int) -> Option<LintSpec> {
    match ctx_verdict(doc, ctx, i) {
        Some(VerdictSpec::Unknown { word, .. }) => Some(plain(doc.tokens@[i].span, LintKind::WordChoice, unknown_message(word))),
        _ => None,
    }
}

/// The lints of one of the dictionary rules over the words `ws`, in order.
pub open spec fn collect(doc: Document, ctx: Ctx, ws: Seq<int>, which: nat) -> Seq<LintSpec>
    decreases ws.len(),
{
    if ws.len() == 0 {
        Seq::empty()
    } else {
        let i = ws.last();
        let one = if which == 0 {
            unapproved_lint(doc, ctx, i)
        } else if which == 1 {
            wrong_pos_lint(doc, ctx, i)
        } else {
            unknown_lint(doc, ctx, i)
        };
        match one {
            Some(l) => collect(doc, ctx, ws.drop_last(), which).push(l),
            None => collect(doc, ctx, ws.drop_last(), which),
        }
    }
}

fn push_named(out: &mut Vec<char>, word: &String, row: &String)
    ensures
        final(out)@ == old(out)@ + named(word@, row@),
{
    let ghost o = out@;
    push_str(out, "`");
    push_str(out, word.as_str());
    if str_eq(row.as_str(), word.as_str()) {
        push_str(out, "`");
        assert(out@ =~= o + named(word@, row@));
    } else {
        push_str(out, "` (`");
        push_str(out, row.as_str());
        push_str(out, "`)");
        assert(out@ =~= o + named(word@, row@));
    }
}

fn has_space(s: &String) -> (b: bool)
    ensures
        b == s@.contains(' '),
{
    let cs = chars_of(s.as_str());
    let mut k: usize = 0;
    while k < cs.len()
        invariant
            cs@ == s@,
            k <= cs@.len(),
            forall|j: int| 0 <= j < k ==> cs@[j] != ' ',
        decreases cs@.len() - k,
    {
        if cs[k] == ' ' {
            assert(s@[k as int] == ' ');
            return true;
        }
        k = k + 1;
    }
    false
}

fn other_alternatives_of(alts: &[String], row: &String) -> (v: Vec<String>)
    ensures
        strings_view(v@) == other_alternatives(alts@, row@),
{
    let mut v: Vec<String> = Vec::new();
    let mut k: usize = 0;
    assert(alts@.take(0) =~= Seq::<String>::empty());
    while k < alts.len()
        invariant
            k <= alts@.len(),
            strings_view(v@) == other_alternatives(alts@.take(k as int), row@),
        decreases alts@.len() - k,
    {
        let ghost before = v@;
        let lower = to_lowercase(alts[k].as_str());
        assert(alts@.take(k + 1).drop_last() =~= alts@.take(k as int));
        assert(alts@.take(k + 1).last() == alts@[k as int]);
        if !str_eq(lower.as_str(), row.as_str()) {
            v.push(alts[k].clone());
            assert(strings_view(v@) =~= strings_view(before).push(alts@[k as int]@));
        }
        k = k + 1;
    }
    assert(alts@.take(alts@.len() as int) =~= alts@);
    v
}

fn single_word_alternatives(alts: &Vec<String>) -> (v: Vec<String>)
    ensures
        strings_view(v@) == single_words(strings_view(alts@)),
{
    let mut v: Vec<String> = Vec::new();
    let mut k: usize = 0;
    assert(strings_view(alts@).take(0) =~= Seq::<Seq<char>>::empty());
    while k < alts.len()
        invariant
            k <= alts@.len(),
            strings_view(v@) == single_words(strings_view(alts@).take(k as int)),
        decreases alts@.len() - k,
    {
        let ghost before = v@;
        assert(strings_view(alts@).take(k + 1).drop_last() =~= strings_view(alts@).take(k as int));
        assert(strings_view(alts@).take(k + 1).last() == alts@[k as int]@);
        if !has_space(&alts[k]) {
            v.push(alts[k].clone());
            assert(strings_view(v@) =~= strings_view(before).push(alts@[k as int]@));
        }
        k = k + 1;
    }
    assert(strings_view(alts@).take(alts@.len() as int) =~= strings_view(alts@));
    v
}

/// Appends the strings joined by `sep`.
fn push_joined(out: &mut Vec<char>, list: &Vec<String>, sep: &str)
    ensures
        final(out)@ == old(out)@ + join(strings_view(list@), sep@),
{
    let ghost o = out@;
    let mut k: usize = 0;
    assert(strings_view(list@).take(0) =~= Seq::<Seq<char>>::empty());
    while k < list.len()
        invariant
            k <= list@.len(),
            out@ == o + join(strings_view(list@).take(k as int), sep@),
        decreases list@.len() - k,
    {
        let ghost prefix = strings_view(list@).take(k as int);
        assert(strings_view(list@).take(k + 1).drop_last() =~= prefix);
        assert(strings_view(list@).take(k + 1).last() == list@[k as int]@);
        if k > 0 {
            push_str(out, sep);
        }
        push_str(out, list[k].as_str());
        k = k + 1;
        if k == 1 {
            assert(out@ =~= o + join(strings_view(list@).take(k as int), sep@));
        } else {
            assert(out@ =~= o + join(strings_view(list@).take(k as int), sep@));
        }
    }
    assert(strings_view(list@).take(list@.len() as int) =~= strings_view(list@));
}

fn lint_for(doc: &Document, tags: &Tags, ctx: &Ctx, i: usize, which: usize) -> (l: Option<Lint>)
    requires
        tags_for(*doc, *tags),
        i < doc.tokens@.len(),
        which < 3,
    ensures
        match (l, if which == 0 { unapproved_lint(*doc, *ctx, i as int) } else if which == 1 { wrong_pos_lint(*doc, *ctx, i as int) } else { unknown_lint(*doc, *ctx, i as int) }) {
            (Some(x), Some(y)) => x@ == y,
            (None, None) => true,
            _ => false,
        },
{
    let span = doc.tokens[i].span;
    match verdict(doc, tags, ctx, i) {
        Some(Verdict::Unapproved { word, row, used }) => {
            if which != 0 {
                return None;
            }
            let alts = other_alternatives_of(ctx.wordset.alternatives(row.as_str()), &row);
            let replacements = single_word_alternatives(&alts);
            let mut m: Vec<char> = Vec::new();
            push_named(&mut m, &word, &row);
            push_str(&mut m, " is not approved as ");
            push_str(&mut m, describe(used));
            if alts.len() == 0 {
                push_str(&mut m, "; ASD-STE100 approves it only in another part of speech.");
            } else {
                push_str(&mut m, "; use ");
                push_joined(&mut m, &alts, "; ");
                push_str(&mut m, ".");
            }
            let l = Lint { span, lint_kind: LintKind::WordChoice, suggestions: replacements, message: string_from(&m) };
            assert(l@.message =~= unapproved_message(word@, row@, used, strings_view(alts@)));
            Some(l)
        },
        Some(Verdict::WrongPos { word, approved, used }) => {
            if which != 1 {
                return None;
            }
            let mut m: Vec<char> = Vec::new();
            push_str(&mut m, "`");
            push_str(&mut m, word.as_str());
            push_str(&mut m, "` is approved only as ");
            push_str(&mut m, describe(approved));
            push_str(&mut m, ", but is used here as ");
            push_str(&mut m, describe(used));
            push_str(&mut m, ". Add it to the glossary if it is a Technical Name or Technical Verb.");
            assert(m@ =~= wrong_pos_message(word@, approved, used));
            Some(plain_lint(span, LintKind::Usage, string_from(&m)))
        },
        Some(Verdict::Unknown { word, .. }) => {
            if which != 2 {
                return None;
            }
            let mut m: Vec<char> = Vec::new();
            push_str(&mut m, "`");
            push_str(&mut m, word.as_str());
            push_str(
                &mut m,
                "` is not in the ASD-STE100 approved vocabulary. Add it to `docs/glossary.nix` if it is a Technical Name or Technical Verb.",
            );
            assert(m@ =~= unknown_message(word@));
            Some(plain_lint(span, LintKind::WordChoice, string_from(&m)))
        },
        None => None,
    }
}

fn dictionary_lints(doc: &Document, tags: &Tags, ctx: &Ctx, which: usize) -> (v: Vec<Lint>)
    requires
        tags_for(*doc, *tags),
        which < 3,
    ensures
        lints_view(v@) == collect(*doc, *ctx, prose_words(*doc), which as nat),
{
    let words = prose_word_indices(doc, tags);
    let ghost ws = ints(words@);
    let mut v: Vec<Lint> = Vec::new();
    let mut k: usize = 0;
    assert(ws.take(0) =~= Seq::<int>::empty());
    assert(lints_view(v@) =~= Seq::<LintSpec>::empty());
    while k < words.len()
        invariant
            tags_for(*doc, *tags),
            which < 3,
            ws == ints(words@),
            ws == prose_words(*doc),
            forall|j: int| 0 <= j < words@.len() ==> #[trigger] words@[j] < doc.tokens@.len(),
            k <= words@.len(),
            lints_view(v@) == collect(*doc, *ctx, ws.take(k as int), which as nat),
        decreases words@.len() - k,
    {
        let ghost before = v@;
        assert(ws.take(k + 1).drop_last() =~= ws.take(k as int));
        assert(ws.take(k + 1).last() == words@[k as int] as int);
        match lint_for(doc, tags, ctx, words[k], which) {
            Some(l) => {
                v.push(l);
                assert(lints_view(v@) =~= lints_view(before).push(l@));
            },
            None => {},
        }
        k = k + 1;
    }
    assert(ws.take(words@.len() as int) =~= ws);
    v
}

/// `unapproved-word`: each wordlist row restricts one (word, part of speech) pair, not the
/// word, so `work` is unapproved as a verb and fine as a noun. The suggestions are the wordlist's
/// alternatives in the wordlist's case (see `unapproved_lint`); the front end matches their case.
pub fn unapproved_word(doc: &Document, tags: &Tags, ctx: &Ctx) -> (v: Vec<Lint>)
    requires
        tags_for(*doc, *tags),
    ensures
        lints_view(v@) == collect(*doc, *ctx, prose_words(*doc), 0),
{
    dictionary_lints(doc, tags, ctx, 0)
}

/// `wrong-pos`: a word approved only in another part of speech than the one it is used in.
pub fn wrong_pos(doc: &Document, tags: &Tags, ctx: &Ctx) -> (v: Vec<Lint>)
    requires
        tags_for(*doc, *tags),
    ensures
        lints_view(v@) == collect(*doc, *ctx, prose_words(*doc), 1),
{
    dictionary_lints(doc, tags, ctx, 1)
}

/// `unknown-word`: a content word with no row for itself or its lemma, and not in the glossary.
pub fn unknown_word(doc: &Document, tags: &Tags, ctx: &Ctx) -> (v: Vec<Lint>)
    requires
        tags_for(*doc, *tags),
    ensures
        lints_view(v@) == collect(*doc, *ctx, prose_words(*doc), 2),
{
    dictionary_lints(doc, tags, ctx, 2)
}

/// The `--suggest-glossary` input: one entry per out-of-vocabulary occurrence of a word, with
/// the word, the form to declare, and the part of speech it is used in.
pub open spec fn unknown_entries(doc: Document, ctx: Ctx, ws: Seq<int>) -> Seq<(int, Seq<char>, Seq<char>, Upos)>
    decreases ws.len(),
{
    if ws.len() == 0 {
        Seq::empty()
    } else {
        match ctx_verdict(doc, ctx, ws.last()) {
            Some(VerdictSpec::Unknown { word, base, used }) => unknown_entries(doc, ctx, ws.drop_last()).push(
                (ws.last(), word, base, used),
            ),
            _ => unknown_entries(doc, ctx, ws.drop_last()),
        }
    }
}

pub open spec fn unknown_view(v: Seq<(usize, String, String, Upos)>) -> Seq<(int, Seq<char>, Seq<char>, Upos)> {
    v.map_values(|e: (usize, String, String, Upos)| (e.0 as int, e.1@, e.2@, e.3))
}

pub fn unknown(doc: &Document, tags: &Tags, ctx: &Ctx) -> (v: Vec<(usize, String, String, Upos)>)
    requires
        tags_for(*doc, *tags),
    ensures
        unknown_view(v@) == unknown_entries(*doc, *ctx, prose_words(*doc)),
{
    let words = prose_word_indices(doc, tags);
    let ghost ws = ints(words@);
    let mut v: Vec<(usize, String, String, Upos)> = Vec::new();
    let mut k: usize = 0;
    assert(ws.take(0) =~= Seq::<int>::empty());
    assert(unknown_view(v@) =~= Seq::<(int, Seq<char>, Seq<char>, Upos)>::empty());
    while k < words.len()
        invariant
            tags_for(*doc, *tags),
            ws == ints(words@),
            ws == prose_words(*doc),
            forall|j: int| 0 <= j < words@.len() ==> #[trigger] words@[j] < doc.tokens@.len(),
            k <= words@.len(),
            unknown_view(v@) == unknown_entries(*doc, *ctx, ws.take(k as int)),
        decreases words@.len() - k,
    {
        let ghost before = v@;
        assert(ws.take(k + 1).drop_last() =~= ws.take(k as int));
        assert(ws.take(k + 1).last() == words@[k as int] as int);
        match verdict(doc, tags, ctx, words[k]) {
            Some(Verdict::Unknown { word, base, used }) => {
                v.push((words[k], word, base, used));
                assert(unknown_view(v@) =~= unknown_view(before).push((words@[k as int] as int, word@, base@, used)));
            },
            _ => {},
        }
        k = k + 1;
    }
    assert(ws.take(words@.len() as int) =~= ws);
    v
}

} // verus!
