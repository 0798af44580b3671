//! The library's functions one by one, on values small enough to check by hand: every message,
//! every error and every formula with its exact result.

use ste_checker::config::{AppConfig, TextType};
use ste_checker::document::{Document, Sentence, Span, Token, TokenKind, WordMeta};
use ste_checker::glossary::{ErrorKind, Glossary};
use ste_checker::skeleton::{rank, skeleton};
use ste_checker::strmap::StrMap;
use ste_checker::tags::Tags;
use ste_checker::upos::Upos;
use ste_checker::wordset::{describe, equivalent, is_content, AltRow, WordRow, Wordset, WordsetError, MIN_ROWS};
use ste_checker::{check, report, rule_names, vocabulary, Ctx};

use ste_checker::upos::Upos::{ADJ, ADP, ADV, AUX, CCONJ, DET, NOUN, NUM, PART, PRON, PROPN, PUNCT, SCONJ, VERB};

#[derive(Clone)]
enum P {
    W(&'static str, WordMeta),
    End(&'static str),
    Sym(&'static str),
    Code(&'static str),
    Nl,
}

fn meta(pos: Upos) -> WordMeta {
    WordMeta {
        pos_tag: Some(pos),
        is_verb: pos == VERB || pos == AUX,
        is_noun: pos == NOUN || pos == PROPN,
        is_adjective: pos == ADJ,
        is_conjunction: pos == CCONJ || pos == SCONJ,
        verb_progressive: false,
        verb_past: false,
        verb_past_participle: false,
        verb_third_person: false,
        non_singular_noun: false,
        derived_from: None,
        irregular_preterite_of: None,
        irregular_plural_of: None,
    }
}

fn w(text: &'static str, pos: Upos) -> P {
    P::W(text, meta(pos))
}

fn wm(text: &'static str, pos: Upos, f: impl Fn(&mut WordMeta)) -> P {
    let mut m = meta(pos);
    f(&mut m);
    P::W(text, m)
}

fn push_token(source: &mut Vec<char>, tokens: &mut Vec<Token>, text: &str, kind: TokenKind) {
    let start = source.len();
    source.extend(text.chars());
    tokens.push(Token { span: Span { start, end: source.len() }, kind });
}

fn build(pieces: &[P]) -> Document {
    let mut source: Vec<char> = Vec::new();
    let mut tokens: Vec<Token> = Vec::new();
    for (k, p) in pieces.iter().enumerate() {
        let attached = matches!(p, P::End(_) | P::Nl);
        let after_glue = k > 0 && matches!(pieces[k - 1], P::Nl);
        if k > 0 && !attached && !after_glue {
            push_token(&mut source, &mut tokens, " ", TokenKind::Other { whitespace: true, terminator: false });
        }
        match p {
            P::W(t, m) => push_token(&mut source, &mut tokens, t, TokenKind::Word(Some(m.clone()))),
            P::Sym(t) => push_token(&mut source, &mut tokens, t, TokenKind::Other { whitespace: false, terminator: false }),
            P::End(t) => push_token(&mut source, &mut tokens, t, TokenKind::Other { whitespace: false, terminator: true }),
            P::Code(t) => push_token(&mut source, &mut tokens, t, TokenKind::Unlintable),
            P::Nl => push_token(&mut source, &mut tokens, "\n", TokenKind::Other { whitespace: true, terminator: false }),
        }
    }
    let mut sentences = Vec::new();
    let mut first: Option<usize> = None;
    for (i, t) in tokens.iter().enumerate() {
        let (blank, end) = match t.kind {
            TokenKind::Other { whitespace, terminator } => (whitespace, terminator),
            _ => (false, false),
        };
        if first.is_none() && !blank {
            first = Some(i);
        }
        if end {
            sentences.push(Sentence { first: first.unwrap_or(i), end: i + 1 });
            first = None;
        }
    }
    if let Some(f) = first {
        sentences.push(Sentence { first: f, end: tokens.len() });
    }
    Document { source, tokens, headings: Vec::new(), sentences }
}

/// Rows that fill the wordlist past the size the library requires of it.
fn filler() -> Vec<WordRow> {
    (0..1901)
        .map(|n| WordRow { title: format!("zzfill{n}"), wordstatus: "approved".to_string(), spacypos: "NOUN".to_string() })
        .collect()
}

fn wordset() -> Wordset {
    let rows: Vec<WordRow> = [
        ("the", "approved", "DET"),
        ("a", "approved", "DET"),
        ("do", "approved", "VERB"),
        ("not", "approved", "PART"),
        ("Work", "rejected", "VERB"),
        ("lever", "approved", "NOUN"),
        ("report", "approved", "NOUN"),
        ("manual", "approved", "ADJ"),
        ("well", "rejected", "ADV"),
        ("system", "approved", "NOUN"),
        ("run", "approved", "VERB"),
        ("require", "rejected", "VERB"),
        ("open", "approved", "VERB"),
        ("group", "approved", "NOUN"),
        ("user", "approved", "NOUN"),
        ("oddity", "approved", ""),
    ]
    .into_iter()
    .map(|(t, s, p)| WordRow { title: t.to_string(), wordstatus: s.to_string(), spacypos: p.to_string() })
    .collect();
    let alts = vec![
        AltRow { title: "Work".to_string(), alt_title: "operate".to_string() },
        AltRow { title: "work".to_string(), alt_title: "Work".to_string() },
        AltRow { title: "work".to_string(), alt_title: "do the task again".to_string() },
        AltRow { title: "require".to_string(), alt_title: "need".to_string() },
    ];
    let mut rows = rows;
    rows.extend(filler());
    Wordset::from_rows(&rows, &alts).expect("every tag names a part of speech")
}

fn empty() -> Glossary {
    Glossary { names: StrMap::new(), verbs: StrMap::new() }
}

fn names(words: &[&str]) -> Glossary {
    let mut g = empty();
    for w in words {
        g.names.insert(w.to_string(), None);
    }
    g
}

fn span_text(doc: &Document, span: Span) -> String {
    doc.source[span.start..span.end].iter().collect()
}

/// `(rule, covered text, message)` of every finding.
fn findings(doc: &Document, ctx: &Ctx) -> Vec<(&'static str, String, String)> {
    assert!(doc.is_well_formed());
    check(doc, ctx).into_iter().map(|f| (f.rule, span_text(doc, f.lint.span), f.lint.message)).collect()
}

fn of_rule(doc: &Document, ctx: &Ctx, rule: &str) -> Vec<(String, String)> {
    findings(doc, ctx).into_iter().filter(|f| f.0 == rule).map(|f| (f.1, f.2)).collect()
}

// ---------------------------------------------------------------------------------------------
// Tables and small functions.
// ---------------------------------------------------------------------------------------------

#[test]
fn rule_names_run_in_their_order() {
    assert_eq!(
        rule_names(),
        vec![
            "unapproved-word",
            "wrong-pos",
            "unknown-word",
            "sentence-length",
            "noun-cluster",
            "passive-voice",
            "compound-tense",
            "ing-verb",
            "contraction",
        ]
    );
}

#[test]
fn description_allows_longer_sentences() {
    assert_eq!(TextType::Procedure.max_sentence_words(), 20);
    assert_eq!(TextType::Description.max_sentence_words(), 25);
    assert_eq!(TextType::default(), TextType::Procedure);
    let c = AppConfig::default();
    assert_eq!(c.text_type, TextType::Procedure);
    assert!(c.disable.is_empty());
}

#[test]
fn parts_of_speech_in_words() {
    assert_eq!(describe(ADJ), "an adjective");
    assert_eq!(describe(AUX), "an auxiliary verb");
    assert_eq!(describe(SCONJ), "a conjunction");
    assert_eq!(describe(CCONJ), "a conjunction");
    assert_eq!(describe(PROPN), "a proper noun");
    assert_eq!(describe(PUNCT), "a punctuation mark");
    assert!(equivalent(AUX, VERB));
    assert!(!equivalent(VERB, AUX));
    assert!(equivalent(PROPN, NOUN));
    assert!(equivalent(SCONJ, CCONJ));
    assert!(!equivalent(NOUN, ADJ));
    assert!(!equivalent(ADP, ADV) && !equivalent(ADV, ADP));
    assert!(is_content(ADV) && is_content(NOUN) && is_content(VERB) && is_content(ADJ));
    assert!(!is_content(PROPN) && !is_content(NUM) && !is_content(AUX));
}

#[test]
fn wordlist_rows_and_replacements() {
    let ws = wordset();
    let work = ws.get("work").unwrap();
    assert!(!work.approved);
    assert_eq!(work.pos, Some(VERB));
    assert_eq!(ws.get("Work"), None);
    assert_eq!(ws.get("oddity").unwrap().pos, None);
    assert_eq!(ws.alternatives("work"), &["operate".to_string(), "Work".to_string(), "do the task again".to_string()][..]);
    assert!(ws.alternatives("lever").is_empty());
    let bad = vec![
        WordRow { title: "a".to_string(), wordstatus: "approved".to_string(), spacypos: "DET".to_string() },
        WordRow { title: "b".to_string(), wordstatus: "approved".to_string(), spacypos: "ADVERB".to_string() },
    ];
    assert_eq!(Wordset::from_rows(&bad, &Vec::new()).err(), Some(WordsetError::NotAPartOfSpeech("ADVERB".to_string())));
    let mut small = filler();
    small.truncate(MIN_ROWS);
    assert_eq!(Wordset::from_rows(&small, &Vec::new()).err(), Some(WordsetError::TooFewRows(1900)));
    small.push(WordRow { title: "one more".to_string(), wordstatus: "approved".to_string(), spacypos: String::new() });
    assert!(Wordset::from_rows(&small, &Vec::new()).is_ok());
}

#[test]
fn a_later_row_for_a_word_replaces_an_earlier_one() {
    let rows = vec![
        WordRow { title: "Lever".to_string(), wordstatus: "rejected".to_string(), spacypos: "VERB".to_string() },
        WordRow { title: "lever".to_string(), wordstatus: "approved".to_string(), spacypos: "NOUN".to_string() },
    ];
    let mut rows = rows;
    rows.extend(filler());
    let ws = Wordset::from_rows(&rows, &Vec::new()).unwrap();
    let e = ws.get("lever").unwrap();
    assert!(e.approved);
    assert_eq!(e.pos, Some(NOUN));
}

// ---------------------------------------------------------------------------------------------
// The rules' messages.
// ---------------------------------------------------------------------------------------------

#[test]
fn unapproved_word_names_its_alternatives() {
    let ws = wordset();
    let ctx = Ctx::new(AppConfig::default(), empty(), &ws);
    let doc = build(&[w("Do", VERB), w("not", PART), w("work", VERB), w("the", DET), w("lever", NOUN), P::End(".")]);
    assert_eq!(
        of_rule(&doc, &ctx, "unapproved-word"),
        vec![("work".to_string(), "`work` is not approved as a verb; use operate; do the task again.".to_string())]
    );
    let lint = check(&doc, &ctx).into_iter().find(|f| f.rule == "unapproved-word").unwrap().lint;
    assert_eq!(lint.suggestions, vec!["operate".to_string()]);
    let script = build(&[
        w("The", DET),
        w("script", NOUN),
        wm("requires", VERB, |m| {
            m.verb_third_person = true;
            m.derived_from = Some(Some("require".to_string()));
        }),
        w("a", DET),
        w("token", NOUN),
        P::End("."),
    ]);
    assert_eq!(
        of_rule(&script, &ctx, "unapproved-word"),
        vec![("requires".to_string(), "`requires` (`require`) is not approved as a verb; use need.".to_string())]
    );
    let well = build(&[w("The", DET), w("system", NOUN), w("runs", VERB), w("well", ADV), P::End(".")]);
    assert_eq!(
        of_rule(&well, &ctx, "unapproved-word"),
        vec![("well".to_string(), "`well` is not approved as an adverb; ASD-STE100 approves it only in another part of speech.".to_string())]
    );
}

#[test]
fn wrong_pos_and_unknown_word_messages() {
    let ws = wordset();
    let ctx = Ctx::new(AppConfig::default(), empty(), &ws);
    let manual = build(&[w("The", DET), w("report", NOUN), w("is", AUX), w("a", DET), w("manual", NOUN), P::End(".")]);
    assert_eq!(
        of_rule(&manual, &ctx, "wrong-pos"),
        vec![(
            "manual".to_string(),
            "`manual` is approved only as an adjective, but is used here as a noun. Add it to the glossary if it is a Technical Name or Technical Verb."
                .to_string()
        )]
    );
    let browser = build(&[w("The", DET), w("browser", NOUN), P::End(".")]);
    assert_eq!(
        of_rule(&browser, &ctx, "unknown-word"),
        vec![(
            "browser".to_string(),
            "`browser` is not in the ASD-STE100 approved vocabulary. Add it to `docs/glossary.nix` if it is a Technical Name or Technical Verb."
                .to_string()
        )]
    );
    // A proper noun is not a vocabulary violation.
    let name = build(&[w("The", DET), w("Kubernetes", PROPN), P::End(".")]);
    assert!(of_rule(&name, &ctx, "unknown-word").is_empty());
}

#[test]
fn sentence_length_counts_words() {
    let ws = wordset();
    let ctx = Ctx::new(AppConfig::default(), names(&["gear"]), &ws);
    let mut pieces = vec![w("The", DET)];
    for _ in 0..20 {
        pieces.push(w("lever", NOUN));
        pieces.push(P::Sym(","));
    }
    pieces.pop();
    pieces.push(P::End("."));
    let doc = build(&pieces);
    let found = of_rule(&doc, &ctx, "sentence-length");
    assert_eq!(found.len(), 1);
    assert_eq!(found[0].1, "21 words; ASD-STE100 allows at most 20 here. Split the sentence.");
    assert_eq!(found[0].0, span_text(&doc, Span { start: 0, end: doc.source.len() }));
    let described = Ctx::new(AppConfig { text_type: TextType::Description, disable: Vec::new() }, empty(), &ws);
    assert!(of_rule(&doc, &described, "sentence-length").is_empty());
    // Two words are a fragment, not a sentence.
    let fragment = build(&[w("lever", NOUN), w("lever", NOUN)]);
    let tight = Ctx::new(AppConfig::default(), empty(), &ws);
    assert!(of_rule(&fragment, &tight, "sentence-length").is_empty());
}

#[test]
fn noun_cluster_message_and_span() {
    let ws = wordset();
    let ctx = Ctx::new(AppConfig::default(), empty(), &ws);
    let doc = build(&[w("The", DET), w("gear", NOUN), w("housing", NOUN), w("plate", NOUN), w("bolt", NOUN), w("is", AUX), w("loose", ADJ), P::End(".")]);
    assert_eq!(
        of_rule(&doc, &ctx, "noun-cluster"),
        vec![("gear housing plate bolt".to_string(), "4 nouns in a row; ASD-STE100 allows at most 3. Break the cluster up with a preposition.".to_string())]
    );
    let three = build(&[w("The", DET), w("gear", NOUN), w("housing", NOUN), w("plate", NOUN), w("is", AUX), w("loose", ADJ), P::End(".")]);
    assert!(of_rule(&three, &ctx, "noun-cluster").is_empty());
}

#[test]
fn verb_form_messages() {
    let ws = wordset();
    let ctx = Ctx::new(AppConfig::default(), empty(), &ws);
    let passive = build(&[
        w("Groups", NOUN),
        w("are", AUX),
        wm("specified", VERB, |m| {
            m.verb_past = true;
            m.verb_past_participle = true;
        }),
        w("by", ADP),
        w("the", DET),
        w("user", NOUN),
        P::End("."),
    ]);
    assert_eq!(
        of_rule(&passive, &ctx, "passive-voice"),
        vec![(
            "are specified".to_string(),
            "Passive voice (`are specified`). ASD-STE100 wants the active voice: name who or what does the action.".to_string()
        )]
    );
    let compound = build(&[w("We", PRON), w("have", AUX), w("not", PART), wm("chosen", VERB, |m| m.verb_past_participle = true), w("it", PRON), P::End(".")]);
    assert_eq!(
        of_rule(&compound, &ctx, "compound-tense"),
        vec![(
            "have not chosen".to_string(),
            "Compound tense (`have chosen`). ASD-STE100 permits only the simple present, simple past and simple future.".to_string()
        )]
    );
    let ing = build(&[w("The", DET), w("system", NOUN), w("is", AUX), wm("running", VERB, |m| m.verb_progressive = true), P::End(".")]);
    assert_eq!(
        of_rule(&ing, &ctx, "ing-verb"),
        vec![("running".to_string(), "`running` is an -ing form used as a verb. ASD-STE100 allows -ing words only inside a Technical Name.".to_string())]
    );
    // A progressive form is not a passive.
    assert!(of_rule(&ing, &ctx, "passive-voice").is_empty());
}

#[test]
fn contraction_message() {
    let ws = wordset();
    let ctx = Ctx::new(AppConfig::default(), empty(), &ws);
    let doc = build(&[w("It\u{2019}s", PRON), w("the", DET), w("lever", NOUN), P::End(".")]);
    assert_eq!(
        of_rule(&doc, &ctx, "contraction"),
        vec![("It\u{2019}s".to_string(), "`It\u{2019}s` is a contraction. ASD-STE100 wants the words written out in full.".to_string())]
    );
    // A possessive is not a contraction.
    let possessive = build(&[w("The", DET), w("user's", NOUN), w("lever", NOUN), P::End(".")]);
    assert!(of_rule(&possessive, &ctx, "contraction").is_empty());
}

#[test]
fn findings_come_in_source_order() {
    let ws = wordset();
    let ctx = Ctx::new(AppConfig::default(), empty(), &ws);
    let doc = build(&[w("The", DET), w("browser", NOUN), w("can't", AUX), w("work", VERB), P::End(".")]);
    let got: Vec<(&str, String)> = findings(&doc, &ctx).into_iter().map(|f| (f.0, f.1)).collect();
    assert_eq!(
        got,
        vec![("unknown-word", "browser".to_string()), ("contraction", "can't".to_string()), ("unapproved-word", "work".to_string())]
    );
}

// ---------------------------------------------------------------------------------------------
// Reports.
// ---------------------------------------------------------------------------------------------

#[test]
fn byte_lengths_count_utf8() {
    assert_eq!(ste_checker::text::byte_length("\u{dc}nicode \u{2014} \u{1f680}"), Some(8 + 1 + 3 + 1 + 4));
    assert_eq!(ste_checker::text::byte_length(""), Some(0));
}

#[test]
fn json_and_labels_count_bytes() {
    let ws = wordset();
    let ctx = Ctx::new(AppConfig::default(), empty(), &ws);
    let text = "Ünicode — do not work the lever.\n";
    let doc = build(&[w("Ünicode", NOUN), P::Sym("—"), w("do", VERB), w("not", PART), w("work", VERB), w("the", DET), w("lever", NOUN), P::End("."), P::Nl]);
    assert_eq!(doc.source.iter().collect::<String>(), text);
    let found = check(&doc, &ctx);
    let json = report::json("t.md", text, &found);
    let rows: Vec<(&str, usize, usize)> = json.iter().map(|j| (j.rule, j.start, j.end)).collect();
    assert_eq!(rows, vec![("unknown-word", 0, 8), ("unapproved-word", 20, 24)]);
    assert_eq!(json[1].file, "t.md");
    assert_eq!(json[1].suggestions, vec!["operate".to_string()]);
    let labels = report::labels(text, &found).unwrap();
    assert_eq!(labels[1].text, "unapproved-word: `work` is not approved as a verb; use operate; do the task again.");
    assert_eq!((labels[1].start, labels[1].len), (20, 4));
    assert!(report::labels(text, &[]).is_none());
}

// ---------------------------------------------------------------------------------------------
// Glossaries.
// ---------------------------------------------------------------------------------------------

fn error(src: &str) -> (ErrorKind, String, usize, usize, String) {
    let e = Glossary::parse(src).unwrap_err();
    (e.kind, e.key.clone(), e.line, e.column, e.message())
}

#[test]
fn every_refusal_names_its_place() {
    assert_eq!(error("{ } x"), (ErrorKind::ExpectedEndOfFile, String::new(), 1, 5, "line 1, column 5: expected end of file".to_string()));
    assert_eq!(
        error("{ nouns = [ \"server\" ]; }"),
        (
            ErrorKind::NotAGlossaryKey,
            "nouns".to_string(),
            1,
            24,
            "line 1, column 24: `nouns` is not a glossary key; expected `names` or `verbs`".to_string()
        )
    );
    assert_eq!(
        error("{ names = [ { nme = \"x\"; } ]; }"),
        (
            ErrorKind::NotAnEntryField,
            "nme".to_string(),
            1,
            25,
            "line 1, column 25: `nme` is not an entry field; expected `name` or `desc`".to_string()
        )
    );
    assert_eq!(
        error("{ names = [ { desc = \"no name\"; } ]; }"),
        (ErrorKind::EntryWithoutName, String::new(), 1, 34, "line 1, column 34: entry has no `name`".to_string())
    );
    assert_eq!(
        error("{ names = [ \"a\\b\" ]; }"),
        (ErrorKind::EscapeSequence, String::new(), 1, 15, "line 1, column 15: escape sequences are not supported here".to_string())
    );
    assert_eq!(
        error("{ names = [ \"${x}\" ]; }"),
        (ErrorKind::Interpolation, String::new(), 1, 14, "line 1, column 14: string interpolation is not supported here".to_string())
    );
    assert_eq!(
        error("{ names = [ \"abc ]; }"),
        (ErrorKind::UnterminatedString, String::new(), 1, 22, "line 1, column 22: unterminated string".to_string())
    );
    assert_eq!(
        error("{ = }"),
        (ErrorKind::ExpectedAttributeName, String::new(), 1, 3, "line 1, column 3: expected an attribute name".to_string())
    );
    assert_eq!(error("{ names [ ] ; }"), (ErrorKind::Expected('='), String::new(), 1, 9, "line 1, column 9: expected `=`".to_string()));
    assert_eq!(
        error("{\n  names = [\n    \"x\"\n  ]\n}\n"),
        (ErrorKind::Expected(';'), String::new(), 5, 1, "line 5, column 1: expected `;`".to_string())
    );
    assert_eq!(error(""), (ErrorKind::Expected('{'), String::new(), 1, 1, "line 1, column 1: expected `{`".to_string()));
}

#[test]
fn entries_are_lowercased_and_a_later_one_wins() {
    let g = Glossary::parse("{ names = [ \"Server\" { name = \"SERVER\"; desc = \"the box\"; } ]; verbs = [ ]; names = [ \"x\" ]; }").unwrap();
    assert_eq!(g.names.keys(), vec!["server".to_string(), "x".to_string()]);
    assert_eq!(g.names.get("server"), Some(&Some("the box".to_string())));
    assert_eq!(g.verbs.len(), 0);
    // Description text is kept as written.
    let g = Glossary::parse("{ verbs = [ { desc = \"MiXeD\"; name = \"Parse\"; } ]; }").unwrap();
    assert_eq!(g.verbs.get("parse"), Some(&Some("MiXeD".to_string())));
    assert!(g.allows("parse", VERB));
    assert!(g.allows("parse", AUX));
    assert!(!g.allows("parse", NOUN));
    let n = names(&["chat"]);
    assert!(n.allows("chat", NOUN) && n.allows("chat", PROPN) && n.allows("chat", ADJ) && n.allows("chat", ADV));
    assert!(!n.allows("chat", VERB));
}

// ---------------------------------------------------------------------------------------------
// The skeleton.
// ---------------------------------------------------------------------------------------------

#[test]
fn skeleton_ranks_pads_and_marks_code() {
    let found: Vec<(String, Upos)> = vec![
        ("cache".to_string(), NOUN),
        ("browser".to_string(), NOUN),
        ("forbid".to_string(), VERB),
        ("\u{fc}n\u{ef}code".to_string(), ADV),
        ("browser".to_string(), NOUN),
        ("browser".to_string(), VERB),
    ];
    let mut in_code = StrMap::new();
    in_code.insert("cache".to_string(), ());
    let got = skeleton(&found, &in_code);
    let expected = String::new()
        + "# Written by `ste_checker --suggest-glossary`. Every word below is absent from the\n"
        + "# ASD-STE100 approved vocabulary. Delete the ones that are ordinary English \u{2014} only\n"
        + "# Technical Names and Technical Verbs belong here \u{2014} and define the ones you keep.\n"
        + "{\n"
        + "  names = [\n"
        + "    { name = \"browser\"; desc = \"\"; }    # 2\n"
        + "    { name = \"cache\"; desc = \"\"; }      # 1, in code\n"
        + "    { name = \"\u{fc}n\u{ef}code\"; desc = \"\"; }    # 1\n"
        + "  ];\n"
        + "  verbs = [\n"
        + "    { name = \"browser\"; desc = \"\"; }  # 1\n"
        + "    { name = \"forbid\"; desc = \"\"; }   # 1\n"
        + "  ];\n"
        + "}\n";
    assert_eq!(got, expected);
    let parsed = Glossary::parse(&got).unwrap();
    assert_eq!(parsed.names.keys(), vec!["browser".to_string(), "cache".to_string(), "\u{fc}n\u{ef}code".to_string()]);
    assert_eq!(parsed.verbs.get("forbid"), Some(&Some(String::new())));
    let ranked = rank(&found, false);
    assert_eq!(ranked, vec![("browser".to_string(), 2), ("cache".to_string(), 1), ("\u{fc}n\u{ef}code".to_string(), 1)]);
}

#[test]
fn an_empty_skeleton_is_an_empty_glossary() {
    let got = skeleton(&Vec::new(), &StrMap::new());
    assert!(got.ends_with("{\n  names = [\n  ];\n  verbs = [\n  ];\n}\n"));
    let g = Glossary::parse(&got).unwrap();
    assert_eq!((g.names.len(), g.verbs.len()), (0, 0));
}

// ---------------------------------------------------------------------------------------------
// Vocabulary and the laws on values.
// ---------------------------------------------------------------------------------------------

#[test]
fn code_identifiers_are_split_and_lowercased() {
    let ws = wordset();
    let ctx = Ctx::new(AppConfig::default(), empty(), &ws);
    let doc = build(&[w("Use", VERB), P::Code("`Foo.Bar_baz \u{c4}rger9`"), w("now", ADV), P::End(".")]);
    let v = vocabulary(&doc, &ctx);
    assert_eq!(v.in_code.keys(), vec!["bar".to_string(), "baz".to_string(), "foo".to_string(), "\u{e4}rger9".to_string()]);
    assert_eq!(v.unknown, vec![("use".to_string(), VERB), ("now".to_string(), ADV)]);
}

#[test]
fn an_inflection_is_suggested_by_its_lemma() {
    let ws = wordset();
    let ctx = Ctx::new(AppConfig::default(), empty(), &ws);
    let doc = build(&[
        w("The", DET),
        wm("Daemons", NOUN, |m| {
            m.non_singular_noun = true;
            m.derived_from = Some(Some("Daemon".to_string()));
        }),
        w("stop", VERB),
        P::End("."),
    ]);
    assert_eq!(vocabulary(&doc, &ctx).unknown, vec![("daemon".to_string(), NOUN), ("stop".to_string(), VERB)]);
}

#[test]
fn the_bootstrap_loop_closes() {
    let ws = wordset();
    let doc = build(&[w("The", DET), w("browser", NOUN), w("deploys", VERB), w("asynchronously", ADV), P::End(".")]);
    let first = vocabulary(&doc, &Ctx::new(AppConfig::default(), empty(), &ws));
    let glossary = Glossary::parse(&skeleton(&first.unknown, &first.in_code)).unwrap();
    let second = Ctx::new(AppConfig::default(), glossary, &ws);
    assert_eq!(first.unknown.len(), 3);
    assert!(of_rule(&doc, &second, "unknown-word").is_empty());
}

#[test]
fn knobs_only_subtract() {
    let ws = wordset();
    let doc = build(&[w("The", DET), w("browser", NOUN), w("can't", AUX), w("work", VERB), P::End(".")]);
    let plain = findings(&doc, &Ctx::new(AppConfig::default(), empty(), &ws));
    let glossed = findings(&doc, &Ctx::new(AppConfig::default(), names(&["browser"]), &ws));
    assert_eq!(plain.len(), 3);
    assert_eq!(glossed, plain[1..].to_vec());
    let off = AppConfig { text_type: TextType::Procedure, disable: vec!["contraction".to_string(), "no-such-rule".to_string()] };
    let silenced = findings(&doc, &Ctx::new(off, empty(), &ws));
    assert_eq!(silenced.iter().map(|f| f.0).collect::<Vec<_>>(), vec!["unknown-word", "unapproved-word"]);
}

#[test]
fn a_document_without_words_has_nothing_to_say() {
    let ws = wordset();
    let ctx = Ctx::new(AppConfig::default(), empty(), &ws);
    let doc = build(&[P::Code("```\nwork the lever, browser\n```"), P::Nl, P::Sym("42"), P::End(".")]);
    assert!(findings(&doc, &ctx).is_empty());
}

#[test]
fn a_malformed_document_is_told_apart() {
    let mut doc = build(&[w("The", DET), w("lever", NOUN), P::End(".")]);
    assert!(doc.is_well_formed());
    doc.tokens[1].span.end = 99;
    assert!(!doc.is_well_formed());
    let mut doc = build(&[w("The", DET), w("lever", NOUN), P::End(".")]);
    doc.sentences.push(Sentence { first: 2, end: 9 });
    assert!(!doc.is_well_formed());
    let mut doc = build(&[w("The", DET), w("lever", NOUN), P::End(".")]);
    doc.tokens.swap(0, 2);
    assert!(!doc.is_well_formed());
}

#[test]
fn headings_are_not_checked() {
    let ws = wordset();
    let ctx = Ctx::new(AppConfig::default(), empty(), &ws);
    let mut doc = build(&[
        w("Browser", NOUN),
        w("lever", NOUN),
        w("lever", NOUN),
        w("lever", NOUN),
        w("lever", NOUN),
        P::Nl,
        w("The", DET),
        w("browser", NOUN),
        P::End("."),
    ]);
    let all = findings(&doc, &ctx);
    assert_eq!(all.iter().map(|f| f.0).collect::<Vec<_>>(), vec!["unknown-word", "noun-cluster", "unknown-word"]);
    let title_end = doc.tokens[8].span.end;
    doc.headings.push(Span { start: 0, end: title_end });
    let outside: Vec<(&str, String)> = findings(&doc, &ctx).into_iter().map(|f| (f.0, f.1)).collect();
    assert_eq!(outside, vec![("unknown-word", "browser".to_string())]);
}

#[test]
fn a_written_glossary_reads_back_as_itself() {
    let mut g = empty();
    g.names.insert("server".to_string(), None);
    g.names.insert("oauth".to_string(), Some("the # flow\n[of] {tokens};".to_string()));
    g.verbs.insert("parse".to_string(), None);
    let written = "{\n  names = [\n    \"server\"\n    { name = \"oauth\"; desc = \"the # flow\n[of] {tokens};\"; }\n  ];\n  verbs = [\n    { name = \"parse\"; }\n  ];\n}\n";
    assert_eq!(Glossary::parse(written), Ok(g));
}

#[test]
fn any_spacing_reads_back_the_same() {
    let mut g = empty();
    g.names.insert("server".to_string(), None);
    g.names.insert("oauth".to_string(), Some("the # flow".to_string()));
    g.verbs.insert("parse".to_string(), None);
    let tight = "{names=[\"server\"{name=\"oauth\";desc=\"the # flow\";}];verbs=[{name=\"parse\";}];}";
    let loose = "# glossary\n\t{ # open\n names\r\n=\n[ \"server\" # first\n {\tname =\"oauth\" ;\n desc= \"the # flow\"\n; }\n]\n;\n verbs = [ { name = \"parse\" ; } ] ;\n}\n# end";
    assert_eq!(Glossary::parse(tight), Ok(g.clone()));
    assert_eq!(Glossary::parse(loose), Ok(g));
}

#[test]
fn an_accepted_glossary_reads_back_the_same() {
    let first = Glossary::parse("{ verbs = [ \"Parse\" ]; names = [ { desc = \"d\"; name = \"Server\"; } \"oauth\" ]; }").unwrap();
    let again = Glossary::parse("{ names = [ \"oauth\" { name = \"server\"; desc = \"d\"; } ]; verbs = [ { name = \"parse\"; } ]; }").unwrap();
    assert_eq!(first, again);
}

#[test]
fn a_gerund_after_a_noun_moves_only_to_a_noun_reading() {
    let gerund = |noun: bool| {
        wm("processing", VERB, move |m: &mut WordMeta| {
            m.verb_progressive = true;
            m.is_noun = noun;
        })
    };
    let doc = build(&[w("data", NOUN), gerund(true), P::End(".")]);
    assert!(doc.is_well_formed());
    let tags = Tags::new(&doc);
    assert_eq!(tags.pos(2), Some(NOUN));
    let doc = build(&[w("data", NOUN), gerund(false), P::End(".")]);
    let tags = Tags::new(&doc);
    assert_eq!(tags.pos(2), Some(VERB));
    assert_eq!(tags.pos(0), Some(NOUN));
}
