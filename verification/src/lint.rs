//! What a rule reports: a span of the source, a kind, a message and replacements.
use vstd::prelude::*;
use crate::document::Span;

verus! {

#[derive(Clone, Copy, Debug, PartialEq, Eq, Structural)]
pub enum LintKind {
    WordChoice,
    Usage,
    Style,
    Readability,
}

/// One report. `suggestions` are replacement words as the wordlist writes them; a front end
/// matches each to the case of the replaced text before it shows it.
#[derive(Clone, Debug, PartialEq, Eq)]
pub struct Lint {
    pub span: Span,
    pub lint_kind: LintKind,
    pub suggestions: Vec<String>,
    pub message: String,
}

/// A lint as a value: the message and the suggestions as character sequences.
pub struct LintSpec {
    pub span: Span,
    pub kind: LintKind,
    pub message: Seq<char>,
    pub suggestions: Seq<Seq<char>>,
}

pub open spec fn strings_view(v: Seq<String>) -> Seq<Seq<char>> {
    v.map_values(|s: String| s@)
}

impl View for Lint {
    type V = LintSpec;

    open spec fn view(&self) -> LintSpec {
        LintSpec {
            span: self.span,
            kind: self.lint_kind,
            message: self.message@,
            suggestions: strings_view(self.suggestions@),
        }
    }
}

pub open spec fn lints_view(v: Seq<Lint>) -> Seq<LintSpec> {
    v.map_values(|l: Lint| l@)
}

/// A lint with no suggestions.
pub open spec fn plain(span: Span, kind: LintKind, message: Seq<char>) -> LintSpec {
    LintSpec { span, kind, message, suggestions: Seq::empty() }
}

pub fn plain_lint(span: Span, kind: LintKind, message: String) -> (l: Lint)
    ensures
        l@ == plain(span, kind, message@),
{
    let l = Lint { span, lint_kind: kind, suggestions: Vec::new(), message };
    assert(strings_view(l.suggestions@) =~= Seq::<Seq<char>>::empty());
    l
}

} // verus!
