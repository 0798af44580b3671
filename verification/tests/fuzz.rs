//! A deterministic metamorphic fuzzer. A finding is a judgement about English and there is no
//! oracle for one; what is checkable without a reader is everything the crate claims around a
//! finding: spans index the source, the same document reads the same way twice, code is
//! invisible, the two suppression knobs only subtract, a suggested glossary reads back and absorbs
//! the words it was written from, and a glossary file reads back as what was written.

use ste_checker::config::{AppConfig, TextType};
use ste_checker::document::{Document, Sentence, Span, Token, TokenKind, WordMeta};
use ste_checker::glossary::Glossary;
use ste_checker::skeleton::skeleton;
use ste_checker::strmap::StrMap;
use ste_checker::upos::Upos;
use ste_checker::upos::Upos::{ADJ, ADV, AUX, CCONJ, DET, NOUN, PART, PROPN, VERB};
use ste_checker::wordset::{AltRow, WordRow, Wordset};
use ste_checker::{check, report, vocabulary, Ctx, Finding};

// ---------------------------------------------------------------------------------------------
// Randomness.
// ---------------------------------------------------------------------------------------------

struct Rng(u64);

impl Rng {
    fn new(seed: u64) -> Rng {
        Rng(seed.wrapping_mul(0x9E37_79B9_7F4A_7C15) ^ 0xD1B5_4A32_D192_ED03)
    }

    fn next(&mut self) -> u64 {
        let mut x = self.0;
        x ^= x >> 12;
        x ^= x << 25;
        x ^= x >> 27;
        self.0 = x;
        x.wrapping_mul(0x2545_F491_4F6C_DD1D)
    }

    fn below(&mut self, n: usize) -> usize {
        (self.next() % n as u64) as usize
    }

    fn weighted(&mut self, weights: &[usize]) -> usize {
        let total: usize = weights.iter().sum();
        let mut r = self.below(total);
        for (k, w) in weights.iter().enumerate() {
            if r < *w {
                return k;
            }
            r -= w;
        }
        weights.len() - 1
    }
}

// ---------------------------------------------------------------------------------------------
// Words, as the parser and the tagger hand them over.
// ---------------------------------------------------------------------------------------------

fn meta(pos: Upos) -> WordMeta {
    WordMeta {
        pos_tag: Some(pos),
        is_verb: pos == Upos::VERB || pos == Upos::AUX,
        is_noun: pos == Upos::NOUN || pos == Upos::PROPN,
        is_adjective: pos == Upos::ADJ,
        is_conjunction: pos == Upos::CCONJ || pos == Upos::SCONJ,
        verb_progressive: false,
        verb_past: false,
        verb_past_participle: false,
        verb_third_person: false,
        non_singular_noun: false,
        derived_from: None,
        irregular_preterite_of: None,
        irregular_plural_of: None,
    }
}

#[derive(Clone)]
enum Piece {
    W(String, WordMeta),
    Punct(&'static str),
    End(&'static str),
    Hy,
    Code(String),
    Nl,
}

fn word(r: &mut Rng) -> Vec<Piece> {
    let plain = |t: &str, p: Upos| vec![Piece::W(t.to_string(), meta(p))];
    let with = |t: &str, p: Upos, f: &dyn Fn(&mut WordMeta)| {
        let mut m = meta(p);
        f(&mut m);
        vec![Piece::W(t.to_string(), m)]
    };
    match r.weighted(&[10, 6, 4, 3, 3, 2, 2, 2, 4]) {
        0 => {
            const APPROVED: &[(&str, Upos)] = &[
                ("remove", VERB),
                ("install", VERB),
                ("the", DET),
                ("file", NOUN),
                ("do", VERB),
                ("not", PART),
                ("work", VERB),
                ("work", NOUN),
                ("lever", NOUN),
                ("system", NOUN),
                ("start", VERB),
                ("unit", NOUN),
                ("make", VERB),
                ("value", NOUN),
                ("test", NOUN),
                ("a", DET),
                ("and", CCONJ),
                ("to", PART),
                ("when", ADV),
                ("most", ADV),
            ];
            let (t, p) = APPROVED[r.below(APPROVED.len())];
            if t == "when" {
                with(t, p, &|m| m.is_conjunction = true)
            } else if t == "most" {
                with(t, p, &|m| m.is_adjective = true)
            } else if t == "work" {
                with(t, p, &|m| {
                    m.is_verb = true;
                    m.is_noun = true;
                })
            } else {
                plain(t, p)
            }
        },
        1 => match r.below(11) {
            0 => plain("browser", NOUN),
            1 => plain("socket", NOUN),
            2 => plain("kubernetes", PROPN),
            3 => plain("repo", NOUN),
            4 => plain("cache", NOUN),
            5 => plain("daemon", NOUN),
            6 => plain("webhook", NOUN),
            7 => with("quicker", ADJ, &|m| m.derived_from = Some(Some("quick".to_string()))),
            8 => with("requires", VERB, &|m| {
                m.verb_third_person = true;
                m.derived_from = Some(Some("require".to_string()));
            }),
            9 => plain("asynchronously", ADV),
            _ => plain("Deploy", VERB),
        },
        2 => {
            const AUX: &[&str] = &["is", "are", "was", "were", "have", "has", "had", "been", "never"];
            let t = AUX[r.below(AUX.len())];
            if t == "never" { plain(t, ADV) } else { plain(t, Upos::AUX) }
        },
        3 => {
            const PP: &[(&str, &str)] = &[
                ("specified", "specify"),
                ("configured", "configure"),
                ("chosen", ""),
                ("written", "write"),
                ("found", "find"),
                ("enabled", "enable"),
            ];
            let (t, l) = PP[r.below(PP.len())];
            with(t, VERB, &|m| {
                m.verb_past = true;
                m.verb_past_participle = true;
                if !l.is_empty() {
                    m.derived_from = Some(Some(l.to_string()));
                }
            })
        },
        4 => {
            const ING: &[(&str, &str)] = &[
                ("watching", "watch"),
                ("running", "run"),
                ("forwarding", "forward"),
                ("choosing", "choose"),
                ("monitoring", "monitor"),
            ];
            let (t, l) = ING[r.below(ING.len())];
            with(t, VERB, &|m| {
                m.verb_progressive = true;
                m.is_noun = r_noun(t);
                m.derived_from = Some(Some(l.to_string()));
            })
        },
        5 => {
            const CONTRACTED: &[&str] = &["can't", "won't", "it's", "isn\u{2019}t", "we\u{2019}re", "let's"];
            plain(CONTRACTED[r.below(CONTRACTED.len())], AUX)
        },
        6 => {
            const HYPHENATED: &[(&str, &str)] = &[("well", "known"), ("argument", "less"), ("1", "fold"), ("read", "only")];
            let (a, b) = HYPHENATED[r.below(HYPHENATED.len())];
            let first = if a == "1" { Piece::Punct("1") } else { Piece::W(a.to_string(), meta(ADV)) };
            vec![first, Piece::Hy, Piece::W(b.to_string(), meta(ADJ))]
        },
        7 => {
            const ODD: &[&str] = &["\u{dc}nicode", "cafe\u{301}", "\u{65e5}\u{672c}\u{8a9e}", "\u{1f680}", "na\u{200b}me", "\u{ff21}\u{ff22}"];
            plain(ODD[r.below(ODD.len())], NOUN)
        },
        _ => {
            const NOUNS: &[&str] = &["gear", "housing", "cover", "plate", "assembly", "bolt", "panel", "tank"];
            let t = NOUNS[r.below(NOUNS.len())];
            if t == "cover" {
                with(t, VERB, &|m| m.is_noun = true)
            } else {
                plain(t, NOUN)
            }
        },
    }
}

fn r_noun(t: &str) -> bool {
    t == "monitoring" || t == "running"
}

fn words(r: &mut Rng, n: usize) -> Vec<Piece> {
    let mut out = Vec::new();
    for i in 0..n {
        if i > 0 && r.below(8) == 0 {
            out.push(Piece::Punct(","));
        }
        out.extend(word(r));
    }
    out
}

fn sentence(r: &mut Rng) -> Vec<Piece> {
    let n = 1 + r.below(30);
    let mut out = words(r, n);
    out.push(Piece::End([".", "!", "?", "."][r.below(4)]));
    out
}

/// A generated document, and which of its blocks are headings.
struct Gen {
    blocks: Vec<(Vec<Piece>, bool)>,
}

fn markdown(r: &mut Rng, size: usize) -> Gen {
    let mut blocks = Vec::new();
    for _ in 0..size {
        let kind = r.weighted(&[8, 2, 3, 2, 2]);
        let n = 1 + r.below(6);
        let block = match kind {
            0 => (sentence(r), false),
            1 => (words(r, n), true),
            2 => {
                let mut v = vec![Piece::Punct("-")];
                v.extend(sentence(r));
                (v, false)
            },
            3 => {
                let text: String = words(r, n)
                    .iter()
                    .map(|p| match p {
                        Piece::W(t, _) => t.clone(),
                        _ => String::from(";"),
                    })
                    .collect::<Vec<_>>()
                    .join(" ");
                (vec![Piece::Code(format!("```\n{text}\n```"))], false)
            },
            _ => {
                let mut v = vec![Piece::W("Use".to_string(), meta(Upos::VERB))];
                let text: String = words(r, n)
                    .iter()
                    .map(|p| match p {
                        Piece::W(t, _) => t.clone(),
                        _ => String::from("_"),
                    })
                    .collect::<Vec<_>>()
                    .join(".");
                v.push(Piece::Code(format!("`{text}`")));
                v.extend(words(r, 2));
                v.push(Piece::End("."));
                (v, false)
            },
        };
        blocks.push(block);
    }
    Gen { blocks }
}

fn push_token(source: &mut Vec<char>, tokens: &mut Vec<Token>, text: &str, kind: TokenKind) {
    let start = source.len();
    source.extend(text.chars());
    tokens.push(Token { span: Span { start, end: source.len() }, kind });
}

fn blank(source: &mut Vec<char>, tokens: &mut Vec<Token>, text: &str) {
    push_token(source, tokens, text, TokenKind::Other { whitespace: true, terminator: false });
}

/// Lays the blocks out as a document; `fenced` makes every token code, as a document wrapped in
/// one fence reads.
fn lay_out(g: &Gen, fenced: bool) -> Document {
    let mut source: Vec<char> = Vec::new();
    let mut tokens: Vec<Token> = Vec::new();
    let mut headings: Vec<Span> = Vec::new();
    for (block, heading) in &g.blocks {
        let start = source.len();
        if *heading {
            push_token(&mut source, &mut tokens, "#", TokenKind::Other { whitespace: false, terminator: false });
        }
        for (k, p) in block.iter().enumerate() {
            let attached = matches!(p, Piece::End(_) | Piece::Hy | Piece::Nl) || (matches!(p, Piece::Punct(",")));
            let glued = k > 0 && matches!(block[k - 1], Piece::Hy);
            if (k > 0 || *heading) && !attached && !glued {
                blank(&mut source, &mut tokens, " ");
            }
            match p {
                Piece::W(t, m) => push_token(&mut source, &mut tokens, t, TokenKind::Word(Some(m.clone()))),
                Piece::Punct(t) => push_token(&mut source, &mut tokens, t, TokenKind::Other { whitespace: false, terminator: false }),
                Piece::End(t) => push_token(&mut source, &mut tokens, t, TokenKind::Other { whitespace: false, terminator: true }),
                Piece::Hy => push_token(&mut source, &mut tokens, "-", TokenKind::Hyphen),
                Piece::Code(t) => push_token(&mut source, &mut tokens, t, TokenKind::Unlintable),
                Piece::Nl => blank(&mut source, &mut tokens, "\n"),
            }
        }
        if *heading {
            headings.push(Span { start, end: source.len() });
        }
        blank(&mut source, &mut tokens, "\n\n");
    }
    if fenced {
        let n = tokens.len();
        tokens = Vec::new();
        let text: String = source.iter().collect();
        let wrapped = format!("````text\n{text}\n````\n");
        source = wrapped.chars().collect();
        if n > 0 {
            tokens.push(Token { span: Span { start: 0, end: source.len() }, kind: TokenKind::Unlintable });
        }
        headings = Vec::new();
    }
    let sentences = sentences_of(&tokens);
    Document { source, tokens, headings, sentences }
}

fn sentences_of(tokens: &[Token]) -> Vec<Sentence> {
    let mut out = Vec::new();
    let mut first: Option<usize> = None;
    for (i, t) in tokens.iter().enumerate() {
        let (space, end) = match t.kind {
            TokenKind::Other { whitespace, terminator } => (whitespace, terminator),
            _ => (false, false),
        };
        if first.is_none() && !space {
            first = Some(i);
        }
        if end {
            out.push(Sentence { first: first.unwrap_or(i), end: i + 1 });
            first = None;
        }
    }
    if let Some(f) = first {
        out.push(Sentence { first: f, end: tokens.len() });
    }
    out
}

/// Rows that fill the wordlist past the size the library requires of it.
fn filler() -> Vec<WordRow> {
    (0..1901)
        .map(|n| WordRow { title: format!("zzfill{n}"), wordstatus: "approved".to_string(), spacypos: "NOUN".to_string() })
        .collect()
}

fn wordset() -> Wordset {
    let rows: Vec<(&str, &str, &str)> = vec![
        ("remove", "approved", "VERB"),
        ("install", "approved", "VERB"),
        ("the", "approved", "DET"),
        ("file", "approved", "NOUN"),
        ("do", "approved", "VERB"),
        ("not", "approved", "PART"),
        ("work", "rejected", "VERB"),
        ("lever", "approved", "NOUN"),
        ("system", "approved", "NOUN"),
        ("start", "approved", "VERB"),
        ("unit", "approved", "NOUN"),
        ("make", "approved", "VERB"),
        ("value", "approved", "NOUN"),
        ("test", "approved", "NOUN"),
        ("a", "approved", "DET"),
        ("and", "approved", "CCONJ"),
        ("to", "approved", "PART"),
        ("when", "approved", "CCONJ"),
        ("most", "approved", "ADJ"),
        ("quick", "rejected", "ADJ"),
        ("require", "rejected", "VERB"),
        ("be", "approved", "VERB"),
        ("have", "approved", "VERB"),
        ("specify", "approved", "VERB"),
        ("find", "approved", "VERB"),
        ("write", "approved", "VERB"),
        ("cover", "rejected", "VERB"),
        ("gear", "approved", "NOUN"),
        ("plate", "approved", "NOUN"),
        ("monitor", "approved", "VERB"),
        ("well", "rejected", "ADV"),
        ("use", "approved", "VERB"),
    ];
    let rows: Vec<WordRow> = rows
        .into_iter()
        .map(|(t, s, p)| WordRow { title: t.to_string(), wordstatus: s.to_string(), spacypos: p.to_string() })
        .collect();
    let alts = vec![
        AltRow { title: "work".to_string(), alt_title: "operate".to_string() },
        AltRow { title: "require".to_string(), alt_title: "need".to_string() },
        AltRow { title: "require".to_string(), alt_title: "make sure that you have".to_string() },
    ];
    let mut rows = rows;
    rows.extend(filler());
    Wordset::from_rows(&rows, &alts).expect("every tag names a part of speech")
}

fn empty() -> Glossary {
    Glossary { names: StrMap::new(), verbs: StrMap::new() }
}

/// A finding's identity for comparison: the rule and the span it owns.
fn keys(findings: &[Finding]) -> Vec<(&'static str, usize, usize)> {
    findings.iter().map(|f| (f.rule, f.lint.span.start, f.lint.span.end)).collect()
}

const DICTIONARY: [&str; 3] = ["unapproved-word", "wrong-pos", "unknown-word"];

// ---------------------------------------------------------------------------------------------
// The targets over documents.
// ---------------------------------------------------------------------------------------------

/// Spans index the original text, and the byte ranges of the report read what the character
/// spans read.
fn run_spans(r: &mut Rng, size: usize, ws: &Wordset) -> Result<(), String> {
    let doc = lay_out(&markdown(r, size), false);
    if !doc.is_well_formed() {
        return Err("a generated document is not well formed".to_string());
    }
    let text: String = doc.source.iter().collect();
    let findings = check(&doc, &Ctx::new(AppConfig::default(), empty(), &ws));
    for f in &findings {
        let (start, end) = (f.lint.span.start, f.lint.span.end);
        if !(start <= end && end <= doc.source.len()) {
            return Err(format!("{}: span {start}..{end} runs past the {} chars of the source", f.rule, doc.source.len()));
        }
    }
    let sorted = keys(&findings).windows(2).all(|p| (p[0].1, p[0].2, p[0].0) <= (p[1].1, p[1].2, p[1].0));
    if !sorted {
        return Err("findings are not in source order".to_string());
    }
    if report::labels(&text, &findings).is_some() != !findings.is_empty() {
        return Err("the human report disagrees with itself about having anything to say".to_string());
    }
    for (json, f) in report::json("fuzz.md", &text, &findings).iter().zip(&findings) {
        if !(text.is_char_boundary(json.start) && text.is_char_boundary(json.end)) {
            return Err(format!("{}: byte range {}..{} splits a character", json.rule, json.start, json.end));
        }
        let by_char: String = doc.source[f.lint.span.start..f.lint.span.end].iter().collect();
        if text[json.start..json.end] != by_char {
            return Err(format!("{}: bytes read {:?}, the char span reads {by_char:?}", json.rule, &text[json.start..json.end]));
        }
    }
    Ok(())
}

/// The same document reads the same way twice.
fn run_determinism(r: &mut Rng, size: usize, ws: &Wordset) -> Result<(), String> {
    let doc = lay_out(&markdown(r, size), false);
    let ctx = Ctx::new(AppConfig::default(), empty(), &ws);
    let (first, again) = (check(&doc, &ctx), check(&doc, &ctx));
    if keys(&first) != keys(&again) {
        return Err(format!("two runs disagree:\n  {:?}\n  {:?}", keys(&first), keys(&again)));
    }
    for (a, b) in first.iter().zip(&again) {
        if a.lint.message != b.lint.message || a.lint.suggestions != b.lint.suggestions {
            return Err(format!("two runs disagree about {:?}", a.lint.message));
        }
    }
    Ok(())
}

/// Code never reaches a rule: a document wrapped in one fence has nothing to say.
fn run_fences(r: &mut Rng, size: usize, ws: &Wordset) -> Result<(), String> {
    let doc = lay_out(&markdown(r, size), true);
    let findings = check(&doc, &Ctx::new(AppConfig::default(), empty(), &ws));
    if !findings.is_empty() {
        return Err(format!("a fenced document produced {:?}", keys(&findings)));
    }
    Ok(())
}

/// Both suppression knobs only subtract.
fn run_monotone(r: &mut Rng, size: usize, ws: &Wordset) -> Result<(), String> {
    let doc = lay_out(&markdown(r, size), false);
    let base = check(&doc, &Ctx::new(AppConfig::default(), empty(), &ws));
    let mut glossary = empty();
    for (word, _) in vocabulary(&doc, &Ctx::new(AppConfig::default(), empty(), &ws)).unknown {
        match r.below(2) {
            0 => glossary.names.insert(word, None),
            _ => glossary.verbs.insert(word, None),
        }
    }
    let glossed = check(&doc, &Ctx::new(AppConfig::default(), glossary, &ws));
    let (before, after) = (keys(&base), keys(&glossed));
    for k in &after {
        if !before.contains(k) {
            return Err(format!("the glossary invented {k:?}; it may only take findings away"));
        }
    }
    let outside = |ks: &[(&'static str, usize, usize)]| ks.iter().filter(|(r, ..)| !DICTIONARY.contains(r)).copied().collect::<Vec<_>>();
    if outside(&before) != outside(&after) {
        return Err("the glossary moved a rule that never reads one".to_string());
    }
    let description = AppConfig { text_type: TextType::Description, disable: Vec::new() };
    let described = keys(&check(&doc, &Ctx::new(description, empty(), &ws)));
    for k in &described {
        if !before.contains(k) {
            return Err(format!("the longer sentence ceiling invented {k:?}"));
        }
    }
    let disabled = AppConfig { text_type: TextType::Procedure, disable: vec!["unknown-word".to_string()] };
    let without = keys(&check(&doc, &Ctx::new(disabled, empty(), &ws)));
    let expected: Vec<_> = before.iter().filter(|(r, ..)| *r != "unknown-word").copied().collect();
    if without != expected {
        return Err("disabling a rule did more than silence it".to_string());
    }
    Ok(())
}

/// The bootstrap loop closes: the skeleton parses, holds every word it was written from, and
/// leaves no word out of vocabulary.
fn run_suggest(r: &mut Rng, size: usize, ws: &Wordset) -> Result<(), String> {
    let doc = lay_out(&markdown(r, size), false);
    let found = vocabulary(&doc, &Ctx::new(AppConfig::default(), empty(), &ws));
    let src = skeleton(&found.unknown, &found.in_code);
    let parsed = Glossary::parse(&src).map_err(|e| format!("the skeleton does not parse: {}\n{src}", e.message()))?;
    for (word, pos) in &found.unknown {
        let held = if *pos == Upos::VERB { parsed.verbs.get(word) } else { parsed.names.get(word) };
        if held != Some(&Some(String::new())) {
            return Err(format!("`{word}` was suggested and the skeleton does not hold it with an empty definition"));
        }
    }
    let left: Vec<String> =
        check(&doc, &Ctx::new(AppConfig::default(), parsed, &ws)).into_iter().filter(|f| f.rule == "unknown-word").map(|f| f.lint.message).collect();
    if !left.is_empty() {
        return Err(format!("the suggested glossary left {} unknown-word finding(s): {left:?}", left.len()));
    }
    Ok(())
}

// ---------------------------------------------------------------------------------------------
// The targets over glossary files.
// ---------------------------------------------------------------------------------------------

fn glossary_word(r: &mut Rng) -> String {
    const POOL: &[&str] = &[
        "browser", "socket", "kubernetes", "repo", "cache", "daemon", "webhook", "lever", "gear", "\u{fc}nicode", "\u{65e5}\u{672c}\u{8a9e}", "oauth",
        "read-only", "a_b", "x9",
    ];
    POOL[r.below(POOL.len())].to_string()
}

fn desc(r: &mut Rng) -> String {
    const PIECES: &[&str] = &["", " ", "#", ";", "{", "}", "[", "]", "\n", "=", "//", "the ", "\u{65e5}", "'", "-"];
    let mut out = String::new();
    for _ in 0..r.below(6) {
        out.push_str(PIECES[r.below(PIECES.len())]);
        out.push_str(&glossary_word(r));
    }
    out
}

fn draw_glossary(r: &mut Rng, size: usize) -> Glossary {
    let mut g = empty();
    for _ in 0..size {
        let name = glossary_word(r);
        let d = match r.below(3) {
            0 => None,
            _ => Some(desc(r)),
        };
        match r.below(2) {
            0 => g.names.insert(name, d),
            _ => g.verbs.insert(name, d),
        }
    }
    g
}

/// Writes a glossary out; `r` picks which of the two spellings an entry without a definition
/// takes. Without `r` the rendering is canonical.
fn render(g: &Glossary, mut r: Option<&mut Rng>) -> String {
    let mut out = String::from("{\n");
    for (key, entries) in [("names", &g.names), ("verbs", &g.verbs)] {
        out.push_str(&format!("  {key} = [\n"));
        for (name, d) in entries.entries() {
            let bare = match r.as_mut() {
                Some(r) => r.below(2) == 0,
                None => false,
            };
            out.push_str(&match d {
                Some(d) => format!("    {{ name = \"{name}\"; desc = \"{d}\"; }}\n"),
                None if bare => format!("    \"{name}\"\n"),
                None => format!("    {{ name = \"{name}\"; }}\n"),
            });
        }
        out.push_str("  ];\n");
    }
    out.push_str("}\n");
    out
}

/// Writing a glossary out and reading it back is the identity.
fn run_round_trip(r: &mut Rng, size: usize, _ws: &Wordset) -> Result<(), String> {
    let g = draw_glossary(r, size);
    let src = render(&g, Some(&mut *r));
    let parsed = Glossary::parse(&src).map_err(|e| format!("a rendered glossary does not parse: {}\n{src}", e.message()))?;
    if parsed != g {
        return Err(format!("round trip lost something:\n  wrote {g:?}\n  read  {parsed:?}\n{src}"));
    }
    Ok(())
}

fn mutate(r: &mut Rng, src: &str) -> String {
    const NASTY: &[char] = &['{', '}', '[', ']', '"', '\\', '$', '#', ';', '=', '\n', '\u{e9}', '\u{1f680}', '\'', '\u{4e2d}'];
    let mut chars: Vec<char> = src.chars().collect();
    for _ in 0..1 + r.below(4) {
        if chars.is_empty() {
            break;
        }
        let at = r.below(chars.len());
        let nasty = NASTY[r.below(NASTY.len())];
        match r.below(3) {
            0 => {
                chars.remove(at);
            },
            1 => chars.insert(at, nasty),
            _ => chars[at] = nasty,
        }
    }
    chars.into_iter().collect()
}

/// A damaged file is a rejection that names a place in the file, or a whole reading that
/// survives being written back out.
fn run_mutation(r: &mut Rng, size: usize, _ws: &Wordset) -> Result<(), String> {
    let g = draw_glossary(r, size);
    let rendered = render(&g, Some(&mut *r));
    let src = mutate(r, &rendered);
    match Glossary::parse(&src) {
        Err(e) => {
            let lines = src.split('\n').count();
            if e.line == 0 || e.line > lines || e.column == 0 {
                return Err(format!("the error {} points outside the file", e.message()));
            }
            Ok(())
        },
        Ok(parsed) => {
            let again = render(&parsed, None);
            let reparsed = Glossary::parse(&again).map_err(|e| format!("a parsed glossary does not re-parse: {}\n{again}", e.message()))?;
            if reparsed != parsed {
                return Err(format!("reading a mutated file is not stable:\n{src}"));
            }
            Ok(())
        },
    }
}

type Target = (&'static str, fn(&mut Rng, usize, &Wordset) -> Result<(), String>);

const TARGETS: &[Target] = &[
    ("spans", run_spans),
    ("determinism", run_determinism),
    ("fences", run_fences),
    ("monotone", run_monotone),
    ("suggest", run_suggest),
    ("nix_round_trip", run_round_trip),
    ("nix_mutation", run_mutation),
];

fn scan(seeds: std::ops::Range<u64>, sizes: &[usize]) {
    let ws = wordset();
    for (name, run) in TARGETS {
        for seed in seeds.clone() {
            for &size in sizes {
                let mut r = Rng::new(seed ^ (size as u64) << 32);
                if let Err(e) = run(&mut r, size, &ws) {
                    panic!("{name} (seed {seed}, size {size}): {e}");
                }
            }
        }
    }
}

#[test]
fn fuzz() {
    scan(0..60, &[1, 3, 8, 16]);
}

/// Cases that once told two implementations apart, replayed on every run.
#[test]
fn regressions() {
    scan(1000..1010, &[0, 2, 40]);
    // A definition may hold what a comment would: `#`, newlines and brackets.
    let g = Glossary::parse("{ names = [ { name = \"x\"; desc = \"# not a comment\n[ ] { } ;\"; } ]; verbs = [ ]; }").unwrap();
    assert_eq!(g.names.get("x"), Some(&Some("# not a comment\n[ ] { } ;".to_string())));
    // A dollar sign alone is not interpolation, at the end of a string neither.
    let g = Glossary::parse("{ names = [ \"a$\" \"$b\" ]; }").unwrap();
    assert_eq!(g.names.keys(), vec!["$b".to_string(), "a$".to_string()]);
    // Columns count bytes, as an editor does.
    let e = Glossary::parse("{ names = [ \"\u{fc}\u{fc}\" ]; x }").unwrap_err();
    assert_eq!((e.line, e.column), (1, 25));
    // An empty document and a fenced empty one have nothing to say.
    let ws = wordset();
    let nothing = Document { source: Vec::new(), tokens: Vec::new(), headings: Vec::new(), sentences: Vec::new() };
    assert!(check(&nothing, &Ctx::new(AppConfig::default(), empty(), &ws)).is_empty());
}
