//! What a project configures: the kind of text and the rules it switches off.
use vstd::prelude::*;

verus! {

#[derive(Clone, Debug)]
pub struct AppConfig {
    pub text_type: TextType,
    /// Rule names to switch off entirely.
    pub disable: Vec<String>,
}

impl Default for AppConfig {
    fn default() -> (c: Self)
        ensures
            c.text_type == TextType::Procedure,
            c.disable@.len() == 0,
    {
        AppConfig { text_type: TextType::Procedure, disable: Vec::new() }
    }
}

/// ASD-STE100 allows longer sentences in descriptive text than in procedures.
#[derive(Clone, Copy, Debug, PartialEq, Eq, Structural)]
pub enum TextType {
    Procedure,
    Description,
}

impl TextType {
    pub open spec fn spec_max_sentence_words(self) -> nat {
        match self {
            TextType::Procedure => 20,
            TextType::Description => 25,
        }
    }

    pub fn max_sentence_words(self) -> (n: usize)
        ensures
            n == self.spec_max_sentence_words(),
    {
        match self {
            TextType::Procedure => 20,
            TextType::Description => 25,
        }
    }
}

impl Default for TextType {
    fn default() -> (t: Self)
        ensures
            t == TextType::Procedure,
    {
        TextType::Procedure
    }
}

} // verus!
