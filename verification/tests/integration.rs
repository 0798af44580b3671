//! The checker over hand-tagged documents: each document is what the Markdown parser and the
//! tagger hand the library for one sentence, written out token by token.

use ste_checker::config::{AppConfig, TextType};
use ste_checker::document::{Document, Sentence, Span, Token, TokenKind, WordMeta};
use ste_checker::glossary::Glossary;
use ste_checker::strmap::StrMap;
use ste_checker::upos::Upos;
use ste_checker::wordset::{AltRow, WordRow, Wordset};
use ste_checker::{check, report, Ctx};

// ---------------------------------------------------------------------------------------------
// Building documents.
// ---------------------------------------------------------------------------------------------

#[derive(Clone)]
enum P {
    /// A word and what the dictionary and the tagger say of it.
    W(&'static str, WordMeta),
    /// Punctuation that follows the previous token directly.
    Punct(&'static str),
    /// A sentence terminator.
    End(&'static str),
    /// An opening bracket: a space before it, none after.
    Open(&'static str),
    /// A symbol with spaces on both sides.
    Sym(&'static str),
    /// A number.
    Num(&'static str),
    /// The hyphen inside a compound.
    Hy,
    /// Inline code.
    Code(&'static str),
    /// A line break.
    Nl,
}

fn meta(pos: Upos) -> WordMeta {
    WordMeta {
        pos_tag: Some(pos),
        is_verb: pos == Upos::VERB || pos == Upos::AUX,
        is_noun: pos == Upos::NOUN || pos == Upos::PROPN,
        is_adjective: pos == Upos::ADJ,
        is_conjunction: pos == Upos::CCONJ || pos == Upos::SCONJ,
        verb_progressive: false,
        verb_past: false,
        verb_past_participle: false,
        verb_third_person: false,
        non_singular_noun: false,
        derived_from: None,
        irregular_preterite_of: None,
        irregular_plural_of: None,
    }
}

fn w(text: &'static str, pos: Upos) -> P {
    P::W(text, meta(pos))
}

fn wm(text: &'static str, pos: Upos, f: impl Fn(&mut WordMeta)) -> P {
    let mut m = meta(pos);
    f(&mut m);
    P::W(text, m)
}

/// A verb in the third person, derived from `lemma`.
fn third(text: &'static str, lemma: &'static str) -> P {
    wm(text, Upos::VERB, |m| {
        m.verb_third_person = true;
        m.derived_from = Some(Some(lemma.to_string()));
    })
}

/// A plural noun, derived from `lemma`.
fn plural(text: &'static str, lemma: &'static str) -> P {
    wm(text, Upos::NOUN, |m| {
        m.non_singular_noun = true;
        m.derived_from = Some(Some(lemma.to_string()));
    })
}

/// A past participle (and past form), derived from `lemma`.
fn participle(text: &'static str, lemma: &'static str) -> P {
    wm(text, Upos::VERB, |m| {
        m.verb_past = true;
        m.verb_past_participle = true;
        m.derived_from = Some(Some(lemma.to_string()));
    })
}

/// An irregular preterite of `lemma`.
fn preterite(text: &'static str, lemma: &'static str) -> P {
    wm(text, Upos::VERB, |m| {
        m.verb_past = true;
        m.irregular_preterite_of = Some(lemma.to_string());
    })
}

fn push_token(source: &mut Vec<char>, tokens: &mut Vec<Token>, text: &str, kind: TokenKind) {
    let start = source.len();
    source.extend(text.chars());
    tokens.push(Token { span: Span { start, end: source.len() }, kind });
}

fn space(source: &mut Vec<char>, tokens: &mut Vec<Token>, text: &str) {
    push_token(source, tokens, text, TokenKind::Other { whitespace: true, terminator: false });
}

fn build(pieces: &[P]) -> Document {
    let mut source: Vec<char> = Vec::new();
    let mut tokens: Vec<Token> = Vec::new();
    for (k, p) in pieces.iter().enumerate() {
        let attached = matches!(p, P::Punct(_) | P::End(_) | P::Hy | P::Nl);
        let after_glue = k > 0 && matches!(pieces[k - 1], P::Hy | P::Open(_) | P::Nl);
        if k > 0 && !attached && !after_glue {
            space(&mut source, &mut tokens, " ");
        }
        match p {
            P::W(t, m) => push_token(&mut source, &mut tokens, t, TokenKind::Word(Some(m.clone()))),
            P::Punct(t) | P::Open(t) | P::Sym(t) | P::Num(t) => {
                push_token(&mut source, &mut tokens, t, TokenKind::Other { whitespace: false, terminator: false })
            },
            P::End(t) => push_token(&mut source, &mut tokens, t, TokenKind::Other { whitespace: false, terminator: true }),
            P::Hy => push_token(&mut source, &mut tokens, "-", TokenKind::Hyphen),
            P::Code(t) => push_token(&mut source, &mut tokens, t, TokenKind::Unlintable),
            P::Nl => space(&mut source, &mut tokens, "\n"),
        }
    }
    let sentences = sentences_of(&tokens);
    Document { source, tokens, headings: Vec::new(), sentences }
}

fn sentences_of(tokens: &[Token]) -> Vec<Sentence> {
    let mut out = Vec::new();
    let mut first: Option<usize> = None;
    for (i, t) in tokens.iter().enumerate() {
        let (blank, end) = match t.kind {
            TokenKind::Other { whitespace, terminator } => (whitespace, terminator),
            _ => (false, false),
        };
        if first.is_none() && !blank {
            first = Some(i);
        }
        if end {
            out.push(Sentence { first: first.unwrap_or(i), end: i + 1 });
            first = None;
        }
    }
    if let Some(f) = first {
        out.push(Sentence { first: f, end: tokens.len() });
    }
    out
}

fn text_of(doc: &Document) -> String {
    doc.source.iter().collect()
}

// ---------------------------------------------------------------------------------------------
// The wordlist the tests read.
// ---------------------------------------------------------------------------------------------

/// Rows that fill the wordlist past the size the library requires of it.
fn filler() -> Vec<WordRow> {
    (0..1901)
        .map(|n| WordRow { title: format!("zzfill{n}"), wordstatus: "approved".to_string(), spacypos: "NOUN".to_string() })
        .collect()
}

fn wordset() -> Wordset {
    let rows: Vec<(&str, &str, &str)> = vec![
        ("the", "approved", "DET"),
        ("a", "approved", "DET"),
        ("do", "approved", "VERB"),
        ("not", "approved", "PART"),
        ("work", "rejected", "VERB"),
        ("lever", "approved", "NOUN"),
        ("cover", "rejected", "VERB"),
        ("most", "approved", "ADJ"),
        ("only", "approved", "ADJ"),
        ("when", "approved", "CCONJ"),
        ("where", "approved", "CCONJ"),
        ("use", "approved", "VERB"),
        ("complete", "approved", "VERB"),
        ("report", "approved", "NOUN"),
        ("manual", "approved", "ADJ"),
        ("new", "approved", "ADJ"),
        ("rule", "approved", "NOUN"),
        ("well", "rejected", "ADV"),
        ("system", "approved", "NOUN"),
        ("run", "approved", "VERB"),
        ("group", "approved", "NOUN"),
        ("specify", "approved", "VERB"),
        ("user", "approved", "NOUN"),
        ("require", "rejected", "VERB"),
        ("quick", "rejected", "ADJ"),
        ("open", "approved", "VERB"),
        ("socket", "approved", "NOUN"),
        ("tool", "approved", "NOUN"),
        ("have", "approved", "VERB"),
        ("file", "approved", "NOUN"),
        ("find", "approved", "VERB"),
        ("break", "approved", "VERB"),
        ("write", "approved", "VERB"),
        ("option", "approved", "NOUN"),
        ("man", "approved", "NOUN"),
        ("see", "approved", "VERB"),
        ("check", "approved", "NOUN"),
        ("output", "approved", "NOUN"),
        ("Start", "approved", "VERB"),
        ("unit", "approved", "NOUN"),
    ];
    let rows: Vec<WordRow> = rows
        .into_iter()
        .map(|(t, s, p)| WordRow { title: t.to_string(), wordstatus: s.to_string(), spacypos: p.to_string() })
        .collect();
    let alts: Vec<AltRow> = vec![
        AltRow { title: "Work".to_string(), alt_title: "operate".to_string() },
        AltRow { title: "work".to_string(), alt_title: "work".to_string() },
        AltRow { title: "work".to_string(), alt_title: "do the task again".to_string() },
        AltRow { title: "require".to_string(), alt_title: "need".to_string() },
    ];
    let mut rows = rows;
    rows.extend(filler());
    Wordset::from_rows(&rows, &alts).expect("every tag names a part of speech")
}

fn names(words: &[&str]) -> Glossary {
    let mut g = Glossary { names: StrMap::new(), verbs: StrMap::new() };
    for w in words {
        g.names.insert(w.to_string(), None);
    }
    g
}

fn verbs(words: &[&str]) -> Glossary {
    let mut g = Glossary { names: StrMap::new(), verbs: StrMap::new() };
    for w in words {
        g.verbs.insert(w.to_string(), None);
    }
    g
}

fn empty() -> Glossary {
    Glossary { names: StrMap::new(), verbs: StrMap::new() }
}

/// The words `rule` fired on, in source order.
fn flagged(doc: &Document, rule: &str, ctx: &Ctx) -> Vec<String> {
    assert!(doc.is_well_formed());
    check(doc, ctx)
        .iter()
        .filter(|f| f.rule == rule)
        .map(|f| doc.source[f.lint.span.start..f.lint.span.end].iter().collect())
        .collect()
}

fn rules_fired(doc: &Document, ctx: &Ctx) -> Vec<&'static str> {
    assert!(doc.is_well_formed());
    check(doc, ctx).iter().map(|f| f.rule).collect()
}

use ste_checker::upos::Upos::{ADJ, ADP, ADV, AUX, CCONJ, DET, NOUN, NUM, PART, PRON, PROPN, PUNCT, SCONJ, VERB};

fn stack() -> Document {
    build(&[
        w("The", DET),
        w("main", ADJ),
        w("landing", NOUN),
        w("gear", NOUN),
        w("housing", NOUN),
        wm("cover", VERB, |m| m.is_noun = true),
        w("plate", NOUN),
        w("assembly", NOUN),
        w("bolt", NOUN),
        w("is", AUX),
        w("loose", ADJ),
        P::End("."),
    ])
}

// ---------------------------------------------------------------------------------------------
// The behaviour the checker promises.
// ---------------------------------------------------------------------------------------------

/// The headline tagger error: `cover` reads as a verb, which both invents a finding and splits
/// the nominal phrase the cluster rule counts over.
#[test]
fn noun_cluster_survives_a_mistagged_stack() {
    let ws = wordset();
    let ctx = Ctx::new(AppConfig::default(), empty(), &ws);
    let doc = stack();
    assert_eq!(text_of(&doc), "The main landing gear housing cover plate assembly bolt is loose.");
    assert_eq!(flagged(&doc, "noun-cluster", &ctx).len(), 1);
    assert!(!flagged(&doc, "unapproved-word", &ctx).contains(&"cover".to_string()));
    let panel = build(&[
        w("Remove", VERB),
        w("the", DET),
        w("wing", NOUN),
        w("tip", NOUN),
        w("fuel", NOUN),
        w("tank", NOUN),
        w("access", NOUN),
        w("panel", NOUN),
        P::End("."),
    ]);
    assert_eq!(text_of(&panel), "Remove the wing tip fuel tank access panel.");
    assert_eq!(flagged(&panel, "noun-cluster", &ctx).len(), 1);
}

/// Every one of these is a disagreement between the tagger and the wordlist about the tagset,
/// not a writing fault.
#[test]
fn tagger_artifacts_are_not_wrong_pos() {
    let ws = wordset();
    let ctx = Ctx::new(AppConfig::default(), empty(), &ws);
    let adv_adj = |t: &'static str| wm(t, ADV, |m| m.is_adjective = true);
    let adv_conj = |t: &'static str| wm(t, ADV, |m| m.is_conjunction = true);
    let docs = vec![
        build(&[w("Standard", ADJ), w("logic", NOUN), w("that", PRON), adv_adj("most"), plural("providers", "provider"), w("share", VERB), P::End(".")]),
        build(&[
            adv_conj("When"),
            participle("used", "use"),
            w("as", ADP),
            w("a", DET),
            w("lib", NOUN),
            P::Punct(","),
            w("import", VERB),
            w("with", ADP),
            w("the", DET),
            w("toml", NOUN),
            P::End("."),
        ]),
        build(&[
            w("Delete", VERB),
            w("the", DET),
            w("temporary", ADJ),
            plural("files", "file"),
            adv_conj("when"),
            w("the", DET),
            w("option", NOUN),
            w("is", AUX),
            participle("enabled", "enable"),
            P::End("."),
        ]),
        build(&[w("Auto", NOUN), P::Hy, w("fix", VERB), plural("violations", "violation"), adv_conj("where"), w("possible", ADJ), P::End(".")]),
        build(&[
            w("Run", VERB),
            w("it", PRON),
            w("on", ADP),
            w("your", PRON),
            w("local", ADJ),
            w("machine", NOUN),
            P::Open("("),
            adv_conj("where"),
            w("you", PRON),
            w("can", AUX),
            w("open", VERB),
            w("a", DET),
            w("browser", NOUN),
            P::Punct(")"),
            P::End("."),
        ]),
        build(&[adv_adj("Only"), w("a", DET), w("subset", NOUN), w("of", ADP), plural("rules", "rule"), w("know", VERB), w("how", ADV), w("to", PART), w("audit", VERB), P::End(".")]),
        build(&[wm("Complete", ADJ, |m| m.is_verb = true), w("the", DET), w("OAuth", PROPN), w("authentication", NOUN), w("flow", NOUN), P::End(".")]),
    ];
    let texts = [
        "Standard logic that most providers share.",
        "When used as a lib, import with the toml.",
        "Delete the temporary files when the option is enabled.",
        "Auto-fix violations where possible.",
        "Run it on your local machine (where you can open a browser).",
        "Only a subset of rules know how to audit.",
        "Complete the OAuth authentication flow.",
    ];
    for (doc, text) in docs.iter().zip(texts) {
        assert_eq!(text_of(doc), text);
        assert_eq!(flagged(doc, "wrong-pos", &ctx), Vec::<String>::new(), "{text}");
    }
    let manual = build(&[w("The", DET), w("report", NOUN), w("is", AUX), w("a", DET), w("manual", NOUN), P::End(".")]);
    assert_eq!(text_of(&manual), "The report is a manual.");
    assert_eq!(flagged(&manual, "wrong-pos", &ctx), vec!["manual"]);
}

/// The tokenizer splits hyphenated compounds, and the halves are not words anyone wrote.
#[test]
fn hyphen_compounds_do_not_reach_the_dictionary_rules() {
    let ws = wordset();
    let ctx = Ctx::new(AppConfig::default(), empty(), &ws);
    let a = build(&[w("Argument", NOUN), P::Hy, w("less", ADJ), w("pub", NOUN), w("fn", NOUN), w("new", ADJ), w("is", AUX), w("the", DET), w("rule", NOUN), P::End(".")]);
    assert_eq!(text_of(&a), "Argument-less pub fn new is the rule.");
    assert_eq!(flagged(&a, "wrong-pos", &ctx), Vec::<String>::new());
    let b = build(&[w("Wrap", VERB), w("impl", NOUN), plural("blocks", "block"), w("in", ADP), w("vim", NOUN), P::Num("1"), P::Hy, w("fold", NOUN), plural("markers", "marker"), P::End(".")]);
    assert_eq!(text_of(&b), "Wrap impl blocks in vim 1-fold markers.");
    assert_eq!(flagged(&b, "wrong-pos", &ctx), Vec::<String>::new());
    let c = build(&[w("This", PRON), w("is", AUX), w("a", DET), w("well", ADV), P::Hy, w("known", ADJ), w("problem", NOUN), P::End(".")]);
    assert_eq!(text_of(&c), "This is a well-known problem.");
    assert_eq!(flagged(&c, "unapproved-word", &ctx), Vec::<String>::new());
    let d = build(&[w("The", DET), w("system", NOUN), third("runs", "run"), w("well", ADV), P::End(".")]);
    assert_eq!(text_of(&d), "The system runs well.");
    assert_eq!(flagged(&d, "unapproved-word", &ctx), vec!["well"]);
}

fn groups() -> Document {
    build(&[plural("Groups", "group"), w("are", AUX), participle("specified", "specify"), w("by", ADP), w("the", DET), w("user", NOUN), P::End(".")])
}

/// `passive-voice` owns the span; the dictionary rules would only say the same thing again.
#[test]
fn passive_participle_is_reported_once() {
    let ws = wordset();
    let ctx = Ctx::new(AppConfig::default(), empty(), &ws);
    let doc = groups();
    assert_eq!(text_of(&doc), "Groups are specified by the user.");
    assert_eq!(rules_fired(&doc, &ctx), vec!["passive-voice"]);
}

/// A sentence-initial word with a verb reading is only an imperative when nothing else in the
/// clause is finite.
#[test]
fn imperative_does_not_fire_on_a_finite_clause() {
    let ws = wordset();
    let ctx = Ctx::new(AppConfig::default(), empty(), &ws);
    let complete = || wm("Complete", ADJ, |m| m.is_verb = true);
    let a = build(&[complete(), w("the", DET), w("OAuth", PROPN), w("authentication", NOUN), w("flow", NOUN), P::End(".")]);
    assert_eq!(flagged(&a, "wrong-pos", &ctx), Vec::<String>::new());
    let b = build(&[complete(), w("documentation", NOUN), w("is", AUX), participle("required", "require"), P::End(".")]);
    assert_eq!(text_of(&b), "Complete documentation is required.");
    assert_eq!(flagged(&b, "wrong-pos", &ctx), vec!["Complete"]);
}

fn script_requires() -> Document {
    build(&[w("The", DET), w("script", NOUN), third("requires", "require"), w("a", DET), w("token", NOUN), P::End(".")])
}

/// The wordlist has one row per lemma and no inflections, so the surface form alone is blind to
/// most of a real text.
#[test]
fn inflections_inherit_their_lemma_row() {
    let ws = wordset();
    let ctx = Ctx::new(AppConfig::default(), empty(), &ws);
    assert_eq!(text_of(&script_requires()), "The script requires a token.");
    assert_eq!(flagged(&script_requires(), "unapproved-word", &ctx), vec!["requires"]);
    let quicker = build(&[
        w("The", DET),
        w("build", NOUN),
        w("is", AUX),
        wm("quicker", ADJ, |m| m.derived_from = Some(Some("quick".to_string()))),
        w("now", ADV),
        P::End("."),
    ]);
    assert_eq!(text_of(&quicker), "The build is quicker now.");
    assert!(!flagged(&quicker, "unapproved-word", &ctx).contains(&"quicker".to_string()));
    let glossed = Ctx::new(AppConfig::default(), verbs(&["require"]), &ws);
    assert_eq!(flagged(&script_requires(), "unapproved-word", &glossed), Vec::<String>::new());
}

fn do_not_work() -> Document {
    build(&[w("Do", VERB), w("not", PART), w("work", VERB), w("the", DET), w("lever", NOUN), P::End(".")])
}

fn the_work_is_done() -> Document {
    build(&[w("The", DET), w("work", NOUN), w("is", AUX), participle("done", "do"), P::End(".")])
}

/// The case the standard is built around: the same spelling is approved in one part of speech
/// and not in another.
#[test]
fn part_of_speech_decides_approval() {
    let ws = wordset();
    let ctx = Ctx::new(AppConfig::default(), empty(), &ws);
    let any = |doc: &Document| check(doc, &ctx).iter().any(|f| f.rule == "unapproved-word");
    assert_eq!(text_of(&do_not_work()), "Do not work the lever.");
    assert!(any(&do_not_work()));
    assert_eq!(text_of(&the_work_is_done()), "The work is done.");
    assert!(!any(&the_work_is_done()));
}

fn browser() -> Document {
    build(&[w("The", DET), w("browser", NOUN), third("opens", "open"), w("a", DET), w("socket", NOUN), P::End(".")])
}

/// ASD-STE100 is a whitelist. Control: `work` has a row, so it is vocabulary whichever part of
/// speech it is used in.
#[test]
fn unknown_words_are_reported() {
    let ws = wordset();
    let ctx = Ctx::new(AppConfig::default(), empty(), &ws);
    assert_eq!(text_of(&browser()), "The browser opens a socket.");
    assert_eq!(flagged(&browser(), "unknown-word", &ctx), vec!["browser"]);
    let work = build(&[w("Do", VERB), w("the", DET), w("work", NOUN), P::End(".")]);
    assert_eq!(text_of(&work), "Do the work.");
    assert_eq!(flagged(&work, "unknown-word", &ctx), Vec::<String>::new());
    let glossed = Ctx::new(AppConfig::default(), names(&["browser"]), &ws);
    assert_eq!(flagged(&browser(), "unknown-word", &glossed), Vec::<String>::new());
}

/// The wordlist carries exactly one row per word, and `work/VERB/unapproved` is how it says
/// *work is fine as a noun*.
#[test]
fn a_row_in_another_part_of_speech_is_not_unknown() {
    let ws = wordset();
    let ctx = Ctx::new(AppConfig::default(), empty(), &ws);
    assert_eq!(flagged(&the_work_is_done(), "unknown-word", &ctx), Vec::<String>::new());
    let manual = build(&[w("The", DET), w("report", NOUN), w("is", AUX), w("a", DET), w("manual", NOUN), P::End(".")]);
    assert_eq!(text_of(&manual), "The report is a manual.");
    assert_eq!(flagged(&manual, "unknown-word", &ctx), Vec::<String>::new());
}

/// The whitelist arm is only as good as the lemmatizer under it. Every verb here has an approved
/// lemma in the wordlist.
#[test]
fn irregular_inflections_are_not_unknown() {
    let ws = wordset();
    let ctx = Ctx::new(AppConfig::default(), empty(), &ws);
    let docs = vec![
        build(&[w("The", DET), w("tool", NOUN), third("has", "have"), w("the", DET), w("file", NOUN), P::End(".")]),
        build(&[w("The", DET), w("tool", NOUN), preterite("found", "find"), w("the", DET), w("file", NOUN), P::End(".")]),
        build(&[w("The", DET), w("user", NOUN), preterite("broke", "break"), w("it", PRON), P::End(".")]),
        build(&[w("The", DET), w("user", NOUN), preterite("wrote", "write"), w("the", DET), w("file", NOUN), P::End(".")]),
        build(&[
            w("We", PRON),
            w("have", AUX),
            wm("chosen", VERB, |m| m.verb_past_participle = true),
            w("the", DET),
            w("option", NOUN),
            P::End("."),
        ]),
        build(&[
            w("The", DET),
            wm("men", NOUN, |m| {
                m.non_singular_noun = true;
                m.irregular_plural_of = Some("man".to_string());
            }),
            preterite("saw", "see"),
            w("it", PRON),
            P::End("."),
        ]),
    ];
    let texts = [
        "The tool has the file.",
        "The tool found the file.",
        "The user broke it.",
        "The user wrote the file.",
        "We have chosen the option.",
        "The men saw it.",
    ];
    for (doc, text) in docs.iter().zip(texts) {
        assert_eq!(text_of(doc), text);
        assert_eq!(flagged(doc, "unknown-word", &ctx), Vec::<String>::new(), "{text}");
    }
}

/// A Technical Name is approved as a noun and nothing else.
#[test]
fn a_technical_name_is_not_a_technical_verb() {
    let ws = wordset();
    let doc = build(&[wm("Check", NOUN, |m| m.is_verb = true), w("the", DET), w("output", NOUN), P::End(".")]);
    assert_eq!(text_of(&doc), "Check the output.");
    assert_eq!(flagged(&doc, "wrong-pos", &Ctx::new(AppConfig::default(), empty(), &ws)), vec!["Check"]);
    assert_eq!(flagged(&doc, "wrong-pos", &Ctx::new(AppConfig::default(), names(&["check"]), &ws)), vec!["Check"]);
    assert_eq!(flagged(&doc, "wrong-pos", &Ctx::new(AppConfig::default(), verbs(&["check"]), &ws)), Vec::<String>::new());
}

/// Neither half of `can't` is a word the wordlist has a row for, so without immunity the
/// whitelist arm would report every contraction a second time.
#[test]
fn contractions_are_reported_once() {
    let ws = wordset();
    let ctx = Ctx::new(AppConfig::default(), empty(), &ws);
    let doc = build(&[w("You", PRON), w("can't", AUX), w("do", VERB), w("that", PRON), P::End(".")]);
    assert_eq!(text_of(&doc), "You can't do that.");
    assert_eq!(rules_fired(&doc, &ctx), vec!["contraction"]);
}

fn unicode_lever() -> Document {
    build(&[w("Ünicode", NOUN), P::Sym("—"), w("do", VERB), w("not", PART), w("work", VERB), w("the", DET), w("lever", NOUN), P::End("."), P::Nl])
}

/// Spans count characters; editors count bytes.
#[test]
fn reported_offsets_index_bytes() {
    let ws = wordset();
    let ctx = Ctx::new(AppConfig::default(), empty(), &ws);
    let text = "Ünicode — do not work the lever.\n";
    let doc = unicode_lever();
    assert_eq!(text_of(&doc), text);
    assert!(doc.is_well_formed());
    let findings = check(&doc, &ctx);
    let reported = report::json("t.md", text, &findings);
    let word = reported.iter().find(|f| f.rule == "unapproved-word").expect("`work` as a verb is unapproved");
    assert_eq!(&text[word.start..word.end], "work");
    assert!(report::labels(text, &findings).is_some());
}

/// The three entry forms mean the same thing, and anything outside the data subset of Nix is an
/// error rather than a partial parse.
#[test]
fn glossary_nix_round_trips() {
    let parsed = Glossary::parse(
        "# a comment\n{\n  names = [ \"server\"   { name = \"OAuth\"; }\n\t{ name = \"telegram\"; desc = \"the bot API\"; } ]; # trailing\n  verbs = [{name=\"parse\";}];\n}\n",
    )
    .unwrap();
    assert_eq!(parsed.names.get("server"), Some(&None));
    assert_eq!(parsed.names.get("oauth"), Some(&None));
    assert_eq!(parsed.names.get("telegram"), Some(&Some("the bot API".to_string())));
    assert_eq!(parsed.verbs.keys(), vec!["parse".to_string()]);

    for rejected in [
        "let x = 1; in { names = []; verbs = []; }",
        "import ./other.nix",
        "{ inputs }: { names = []; verbs = []; }",
        "{ names = [ \"${x}\" ]; verbs = []; }",
        "{ nouns = [ \"server\" ]; }",
        "{ names = [ { desc = \"no name\"; } ]; }",
        "{ names = [ \"unterminated ]; }",
    ] {
        assert!(Glossary::parse(rejected).is_err(), "{rejected}");
    }
}
