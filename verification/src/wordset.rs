//! The openSTE wordlist: one row per word, each restricting one (word, part of speech) pair.
use vstd::prelude::*;
use crate::strmap::StrMap;
use crate::text::{str_eq, to_lowercase, lowercase};
use crate::upos::{Upos, tag_name};

verus! {

#[derive(Clone, Copy, Debug, PartialEq, Eq, Structural)]
pub struct Entry {
    pub approved: bool,
    /// `None` for the handful of upstream rows that carry no part of speech.
    pub pos: Option<Upos>,
}

/// The wordlist, keyed by lowercased word, and its table of replacements.
pub struct Wordset {
    entries: StrMap<Entry>,
    alternatives: StrMap<Vec<String>>,
}

impl Wordset {
    /// The row of each word.
    pub closed spec fn rows(&self) -> Map<Seq<char>, Entry> {
        self.entries@
    }

    /// The replacements recorded for each word.
    pub closed spec fn alternatives_of(&self) -> Map<Seq<char>, Vec<String>> {
        self.alternatives@
    }

    pub fn get(&self, word: &str) -> (e: Option<Entry>)
        ensures
            e == (if self.rows().contains_key(word@) { Some(self.rows()[word@]) } else { None::<Entry> }),
    {
        match self.entries.get(word) {
            Some(e) => Some(*e),
            None => None,
        }
    }

    pub fn alternatives(&self, word: &str) -> (alts: &[String])
        ensures
            alts@ == (if self.alternatives_of().contains_key(word@) {
                self.alternatives_of()[word@]@
            } else {
                Seq::<String>::empty()
            }),
    {
        match self.alternatives.get(word) {
            Some(v) => v.as_slice(),
            None => {
                let empty: &[String] = &[];
                assert(empty@ =~= Seq::<String>::empty());
                empty
            },
        }
    }
}

/// STE's parts of speech are coarser than Universal Dependencies': modals count as verbs,
/// possessives as adjectives, and it splits neither particles nor subordinators out.
pub open spec fn is_equivalent(seen: Upos, approved: Upos) -> bool {
    seen == approved || match (seen, approved) {
        (Upos::AUX, Upos::VERB) | (Upos::PART, Upos::ADV) | (Upos::PART, Upos::ADP) | (Upos::PRON, Upos::ADJ)
        | (Upos::PRON, Upos::DET) | (Upos::DET, Upos::PRON) | (Upos::SCONJ, Upos::ADP) | (Upos::SCONJ, Upos::CCONJ)
        | (Upos::PROPN, Upos::NOUN) => true,
        _ => false,
    }
}

pub fn equivalent(seen: Upos, approved: Upos) -> (b: bool)
    ensures
        b == is_equivalent(seen, approved),
{
    seen == approved || match (seen, approved) {
        (Upos::AUX, Upos::VERB) | (Upos::PART, Upos::ADV) | (Upos::PART, Upos::ADP) | (Upos::PRON, Upos::ADJ)
        | (Upos::PRON, Upos::DET) | (Upos::DET, Upos::PRON) | (Upos::SCONJ, Upos::ADP) | (Upos::SCONJ, Upos::CCONJ)
        | (Upos::PROPN, Upos::NOUN) => true,
        _ => false,
    }
}

/// Function words are where the tagger and STE disagree most and matter least.
pub open spec fn is_content_pos(pos: Upos) -> bool {
    pos == Upos::NOUN || pos == Upos::VERB || pos == Upos::ADJ || pos == Upos::ADV
}

pub fn is_content(pos: Upos) -> (b: bool)
    ensures
        b == is_content_pos(pos),
{
    matches!(pos, Upos::NOUN | Upos::VERB | Upos::ADJ | Upos::ADV)
}

/// The part of speech in words, with its own article, so messages read as English.
pub open spec fn description(pos: Upos) -> Seq<char> {
    match pos {
        Upos::ADJ => "an adjective"@,
        Upos::ADP => "a preposition"@,
        Upos::ADV => "an adverb"@,
        Upos::AUX => "an auxiliary verb"@,
        Upos::CCONJ => "a conjunction"@,
        Upos::SCONJ => "a conjunction"@,
        Upos::DET => "a determiner"@,
        Upos::INTJ => "an interjection"@,
        Upos::NOUN => "a noun"@,
        Upos::NUM => "a numeral"@,
        Upos::PART => "a particle"@,
        Upos::PRON => "a pronoun"@,
        Upos::PROPN => "a proper noun"@,
        Upos::PUNCT => "a punctuation mark"@,
        Upos::SYM => "a symbol"@,
        Upos::VERB => "a verb"@,
    }
}

pub fn describe(pos: Upos) -> (s: &'static str)
    ensures
        s@ == description(pos),
{
    match pos {
        Upos::ADJ => "an adjective",
        Upos::ADP => "a preposition",
        Upos::ADV => "an adverb",
        Upos::AUX => "an auxiliary verb",
        Upos::CCONJ | Upos::SCONJ => "a conjunction",
        Upos::DET => "a determiner",
        Upos::INTJ => "an interjection",
        Upos::NOUN => "a noun",
        Upos::NUM => "a numeral",
        Upos::PART => "a particle",
        Upos::PRON => "a pronoun",
        Upos::PROPN => "a proper noun",
        Upos::PUNCT => "a punctuation mark",
        Upos::SYM => "a symbol",
        Upos::VERB => "a verb",
    }
}

/// A row of the wordlist as the vendored file writes it.
pub struct WordRow {
    pub title: String,
    pub wordstatus: String,
    /// A Universal Dependencies tag, or blank.
    pub spacypos: String,
}

/// A replacement the wordlist records for a word.
pub struct AltRow {
    pub title: String,
    pub alt_title: String,
}

/// The part of speech a tag names; `None` for a blank tag.
pub open spec fn tag_of(s: Seq<char>) -> Option<Upos> {
    if s == "ADJ"@ {
        Some(Upos::ADJ)
    } else if s == "ADP"@ {
        Some(Upos::ADP)
    } else if s == "ADV"@ {
        Some(Upos::ADV)
    } else if s == "AUX"@ {
        Some(Upos::AUX)
    } else if s == "CCONJ"@ {
        Some(Upos::CCONJ)
    } else if s == "DET"@ {
        Some(Upos::DET)
    } else if s == "INTJ"@ {
        Some(Upos::INTJ)
    } else if s == "NOUN"@ {
        Some(Upos::NOUN)
    } else if s == "NUM"@ {
        Some(Upos::NUM)
    } else if s == "PART"@ {
        Some(Upos::PART)
    } else if s == "PRON"@ {
        Some(Upos::PRON)
    } else if s == "PROPN"@ {
        Some(Upos::PROPN)
    } else if s == "PUNCT"@ {
        Some(Upos::PUNCT)
    } else if s == "SCONJ"@ {
        Some(Upos::SCONJ)
    } else if s == "SYM"@ {
        Some(Upos::SYM)
    } else if s == "VERB"@ {
        Some(Upos::VERB)
    } else {
        None
    }
}

/// Whether a tag is one the wordlist may carry: a part of speech, or blank.
pub open spec fn tag_valid(s: Seq<char>) -> bool {
    s.len() == 0 || tag_of(s) is Some
}

/// The part of speech a tag names, if it names one.
pub fn parse_upos(s: &str) -> (p: Option<Upos>)
    ensures
        p == tag_of(s@),
{
    if str_eq(s, "ADJ") {
        Some(Upos::ADJ)
    } else if str_eq(s, "ADP") {
        Some(Upos::ADP)
    } else if str_eq(s, "ADV") {
        Some(Upos::ADV)
    } else if str_eq(s, "AUX") {
        Some(Upos::AUX)
    } else if str_eq(s, "CCONJ") {
        Some(Upos::CCONJ)
    } else if str_eq(s, "DET") {
        Some(Upos::DET)
    } else if str_eq(s, "INTJ") {
        Some(Upos::INTJ)
    } else if str_eq(s, "NOUN") {
        Some(Upos::NOUN)
    } else if str_eq(s, "NUM") {
        Some(Upos::NUM)
    } else if str_eq(s, "PART") {
        Some(Upos::PART)
    } else if str_eq(s, "PRON") {
        Some(Upos::PRON)
    } else if str_eq(s, "PROPN") {
        Some(Upos::PROPN)
    } else if str_eq(s, "PUNCT") {
        Some(Upos::PUNCT)
    } else if str_eq(s, "SCONJ") {
        Some(Upos::SCONJ)
    } else if str_eq(s, "SYM") {
        Some(Upos::SYM)
    } else if str_eq(s, "VERB") {
        Some(Upos::VERB)
    } else {
        None
    }
}

/// The entry a row makes.
pub open spec fn row_entry(r: WordRow) -> Entry {
    Entry { approved: r.wordstatus@ == "approved"@, pos: tag_of(r.spacypos@) }
}

/// The rows by lowercased word; a later row for a word replaces an earlier one.
pub open spec fn rows_map(rows: Seq<WordRow>) -> Map<Seq<char>, Entry>
    decreases rows.len(),
{
    if rows.len() == 0 {
        Map::empty()
    } else {
        rows_map(rows.drop_last()).insert(lowercase(rows.last().title@), row_entry(rows.last()))
    }
}

/// The replacements by lowercased word, each word's in the order the file gives them.
pub open spec fn alternatives_map(alts: Seq<AltRow>) -> Map<Seq<char>, Seq<Seq<char>>>
    decreases alts.len(),
{
    if alts.len() == 0 {
        Map::empty()
    } else {
        let m = alternatives_map(alts.drop_last());
        let key = lowercase(alts.last().title@);
        let before = if m.contains_key(key) { m[key] } else { Seq::empty() };
        m.insert(key, before.push(alts.last().alt_title@))
    }
}

pub open spec fn alternatives_view(m: Map<Seq<char>, Vec<String>>) -> Map<Seq<char>, Seq<Seq<char>>> {
    m.map_values(|v: Vec<String>| v@.map_values(|s: String| s@))
}

/// The vendored wordlist has more rows than this; fewer means its shape changed upstream, and
/// checking against a half-loaded wordlist is refused rather than done.
pub const MIN_ROWS: usize = 1900;

/// Why a wordlist was refused.
#[derive(Clone, Debug, PartialEq, Eq)]
pub enum WordsetError {
    /// A row's part of speech names no tag; the tag as written.
    NotAPartOfSpeech(String),
    /// The wordlist has no more than `MIN_ROWS` rows; how many it has.
    TooFewRows(usize),
}

impl Wordset {
    /// The wordlist of these rows and replacements. Refused with the first tag that names no
    /// part of speech, or else when there are no more than `MIN_ROWS` rows.
    pub fn from_rows(rows: &Vec<WordRow>, alts: &Vec<AltRow>) -> (r: Result<Wordset, WordsetError>)
        ensures
            match r {
                Ok(w) => (forall|j: int| 0 <= j < rows@.len() ==> tag_valid((#[trigger] rows@[j]).spacypos@))
                    && rows@.len() > MIN_ROWS
                    && w.rows() == rows_map(rows@) && alternatives_view(w.alternatives_of()) == alternatives_map(alts@),
                Err(WordsetError::NotAPartOfSpeech(tag)) => exists|j: int| 0 <= j < rows@.len() && !tag_valid((#[trigger] rows@[j]).spacypos@)
                    && tag@ == rows@[j].spacypos@,
                Err(WordsetError::TooFewRows(n)) => (forall|j: int| 0 <= j < rows@.len() ==> tag_valid((#[trigger] rows@[j]).spacypos@))
                    && n == rows@.len() && n <= MIN_ROWS,
            },
    {
        let mut entries: StrMap<Entry> = StrMap::new();
        let mut k: usize = 0;
        assert(rows@.take(0) =~= Seq::<WordRow>::empty());
        while k < rows.len()
            invariant
                k <= rows@.len(),
                entries@ == rows_map(rows@.take(k as int)),
                forall|j: int| 0 <= j < k ==> tag_valid((#[trigger] rows@[j]).spacypos@),
            decreases rows@.len() - k,
        {
            let row = &rows[k];
            let tag = row.spacypos.as_str();
            let pos = parse_upos(tag);
            if pos.is_none() && !tag.is_empty() {
                let bad = row.spacypos.clone();
                assert(!tag_valid(rows@[k as int].spacypos@));
                return Err(WordsetError::NotAPartOfSpeech(bad));
            }
            let approved = str_eq(row.wordstatus.as_str(), "approved");
            let key = to_lowercase(row.title.as_str());
            entries.insert(key, Entry { approved, pos });
            assert(rows@.take(k + 1).drop_last() =~= rows@.take(k as int));
            k = k + 1;
        }
        assert(rows@.take(rows@.len() as int) =~= rows@);
        if rows.len() <= MIN_ROWS {
            return Err(WordsetError::TooFewRows(rows.len()));
        }
        let mut alternatives: StrMap<Vec<String>> = StrMap::new();
        let mut a: usize = 0;
        assert(alts@.take(0) =~= Seq::<AltRow>::empty());
        assert(alternatives_view(alternatives@) =~= alternatives_map(alts@.take(0)));
        while a < alts.len()
            invariant
                a <= alts@.len(),
                alternatives_view(alternatives@) == alternatives_map(alts@.take(a as int)),
            decreases alts@.len() - a,
        {
            let key = to_lowercase(alts[a].title.as_str());
            let mut list: Vec<String> = match alternatives.get(key.as_str()) {
                Some(v) => clone_strings(v),
                None => Vec::new(),
            };
            let ghost before = alternatives@;
            let ghost m = alternatives_map(alts@.take(a as int));
            let ghost kv = key@;
            let ghost prior = if m.contains_key(kv) { m[kv] } else { Seq::<Seq<char>>::empty() };
            assert(list@.map_values(|s: String| s@) =~= prior) by {
                if before.contains_key(kv) {
                    assert(alternatives_view(before)[kv] == before[kv]@.map_values(|s: String| s@));
                }
            }
            list.push(alts[a].alt_title.clone());
            assert(list@.map_values(|s: String| s@) =~= prior.push(alts@[a as int].alt_title@));
            let ghost lv = list@.map_values(|s: String| s@);
            alternatives.insert(key, list);
            assert(alts@.take(a + 1).drop_last() =~= alts@.take(a as int));
            assert(alts@.take(a + 1).last() == alts@[a as int]);
            assert(alternatives_view(alternatives@) =~= alternatives_view(before).insert(kv, lv));
            assert(alternatives_view(alternatives@) =~= alternatives_map(alts@.take(a + 1)));
            a = a + 1;
        }
        assert(alts@.take(alts@.len() as int) =~= alts@);
        Ok(Wordset { entries, alternatives })
    }
}

fn clone_strings(v: &Vec<String>) -> (c: Vec<String>)
    ensures
        c@.map_values(|s: String| s@) == v@.map_values(|s: String| s@),
{
    let mut c: Vec<String> = Vec::new();
    let mut k: usize = 0;
    while k < v.len()
        invariant
            k <= v@.len(),
            c@.len() == k,
            forall|j: int| 0 <= j < k ==> (#[trigger] c@[j])@ == v@[j]@,
        decreases v@.len() - k,
    {
        c.push(v[k].clone());
        k = k + 1;
    }
    assert(c@.map_values(|s: String| s@) =~= v@.map_values(|s: String| s@));
    c
}

} // verus!
