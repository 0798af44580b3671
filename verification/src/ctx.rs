//! The context a document is checked in: the wordlist, the glossary and the configuration.
use vstd::prelude::*;
use crate::config::AppConfig;
use crate::glossary::Glossary;
use crate::text::str_eq;
use crate::wordset::Wordset;

verus! {

/// Everything the rules read besides the document itself.
pub struct Ctx<'a> {
    pub wordset: &'a Wordset,
    /// Per-project Technical Names and Technical Verbs. ASD-STE100 is a whitelist, so this is
    /// what keeps a repo's own vocabulary out of `unknown-word`.
    pub glossary: Glossary,
    pub config: AppConfig,
}

/// Whether a rule is on: no entry of `disable` names it.
pub open spec fn enabled(disable: Seq<String>, rule: Seq<char>) -> bool {
    forall|j: int| 0 <= j < disable.len() ==> (#[trigger] disable[j])@ != rule
}

impl<'a> Ctx<'a> {
    pub fn new(config: AppConfig, glossary: Glossary, wordset: &'a Wordset) -> (c: Self)
        ensures
            c.config == config,
            c.glossary == glossary,
            c.wordset == wordset,
    {
        Ctx { wordset, glossary, config }
    }

    pub fn rule_enabled(&self, rule: &str) -> (b: bool)
        ensures
            b == enabled(self.config.disable@, rule@),
    {
        let mut k: usize = 0;
        while k < self.config.disable.len()
            invariant
                k <= self.config.disable@.len(),
                forall|j: int| 0 <= j < k ==> (#[trigger] self.config.disable@[j])@ != rule@,
            decreases self.config.disable@.len() - k,
        {
            if str_eq(self.config.disable[k].as_str(), rule) {
                return false;
            }
            k = k + 1;
        }
        true
    }
}

} // verus!
