//! Universal Dependencies parts of speech, the tagset of the tagger and of the openSTE wordlist.
use vstd::prelude::*;

verus! {

#[allow(non_camel_case_types, clippy::upper_case_acronyms)]
#[derive(Clone, Copy, Debug, PartialEq, Eq, Hash, Structural)]
pub enum Upos {
    ADJ,
    ADP,
    ADV,
    AUX,
    CCONJ,
    DET,
    INTJ,
    NOUN,
    NUM,
    PART,
    PRON,
    PROPN,
    PUNCT,
    SCONJ,
    SYM,
    VERB,
}

/// The tag's name as the wordlist and the tagger write it.
pub open spec fn tag_name(p: Upos) -> Seq<char> {
    match p {
        Upos::ADJ => "ADJ"@,
        Upos::ADP => "ADP"@,
        Upos::ADV => "ADV"@,
        Upos::AUX => "AUX"@,
        Upos::CCONJ => "CCONJ"@,
        Upos::DET => "DET"@,
        Upos::INTJ => "INTJ"@,
        Upos::NOUN => "NOUN"@,
        Upos::NUM => "NUM"@,
        Upos::PART => "PART"@,
        Upos::PRON => "PRON"@,
        Upos::PROPN => "PROPN"@,
        Upos::PUNCT => "PUNCT"@,
        Upos::SCONJ => "SCONJ"@,
        Upos::SYM => "SYM"@,
        Upos::VERB => "VERB"@,
    }
}

} // verus!
