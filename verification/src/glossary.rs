//! `docs/glossary.nix`: the Technical Names and Technical Verbs a project declares under
//! ASD-STE100, and a strict parser for the data subset of Nix that holds them: attribute set,
//! identifier keys, lists, double-quoted strings and `#` comments. Anything else (`let`,
//! `import`, interpolation, a function) is an error, not a partial reading.
use vstd::prelude::*;
use crate::strmap::{StrMap, opt_view};
use crate::text::{lowercase, utf8_len, string_from, to_lowercase, str_eq, char_utf8_len, decimal, push_decimal, push_str};
use crate::upos::Upos;
use crate::wordset::is_equivalent;

verus! {

/// Words to their definitions. Nothing reads a definition yet; it is documentation for the
/// human and the slot a suggested glossary leaves empty.
#[derive(Clone, Debug, PartialEq, Eq)]
pub struct Glossary {
    pub names: StrMap<Option<String>>,
    pub verbs: StrMap<Option<String>>,
}

/// A glossary's terms, each with its definition if it has one.
pub type Terms = Map<Seq<char>, Option<Seq<char>>>;

pub open spec fn terms(m: StrMap<Option<String>>) -> Terms {
    m@.map_values(|v: Option<String>| opt_view(v))
}

impl View for Glossary {
    type V = (Terms, Terms);

    open spec fn view(&self) -> (Terms, Terms) {
        (terms(self.names), terms(self.verbs))
    }
}

impl Default for Glossary {
    fn default() -> (g: Self)
        ensures
            g@.0 == Terms::empty(),
            g@.1 == Terms::empty(),
    {
        let g = Glossary { names: StrMap::new(), verbs: StrMap::new() };
        assert(g@.0 =~= Terms::empty());
        assert(g@.1 =~= Terms::empty());
        g
    }
}

/// The parts of speech a Technical Name covers: a noun; an attributive noun in front of another
/// noun, which the tagger writes as an adjective; and an adverb. The adverb is there on purpose:
/// `--suggest-glossary` files every unknown word that is not a verb among the names, and the
/// glossary read back from that skeleton must absorb each word where it was found, adverbs
/// included (`laws::bootstrap_loop_closes`).
pub open spec fn names_cover(used: Upos) -> bool {
    used == Upos::NOUN || used == Upos::PROPN || used == Upos::ADJ || used == Upos::ADV
}

/// Whether the glossary declares `word` in the part of speech it is used in.
pub open spec fn glossary_allows(g: (Terms, Terms), word: Seq<char>, used: Upos) -> bool {
    (names_cover(used) && g.0.contains_key(word)) || (is_equivalent(used, Upos::VERB) && g.1.contains_key(word))
}

impl Glossary {
    /// A Technical Name is approved in the parts of speech `names_cover` lists (a noun, an
    /// adjective, and an adverb, so that a skeleton's names absorb the adverbs it lists) and a
    /// Technical Verb as a verb; declaring one does not declare the other.
    pub fn allows(&self, word: &str, used: Upos) -> (b: bool)
        ensures
            b == glossary_allows(self@, word@, used),
    {
        (matches!(used, Upos::NOUN | Upos::PROPN | Upos::ADJ | Upos::ADV) && self.names.contains_key(word))
            || (crate::wordset::equivalent(used, Upos::VERB) && self.verbs.contains_key(word))
    }
}

// ---------------------------------------------------------------------------------------------
// The grammar, as functions of the source and a position in it.
// ---------------------------------------------------------------------------------------------

#[derive(Clone, Copy, Debug, PartialEq, Eq, Structural)]
pub enum ErrorKind {
    ExpectedEndOfFile,
    /// The key is the error's `key`.
    NotAGlossaryKey,
    /// The key is the error's `key`.
    NotAnEntryField,
    EntryWithoutName,
    EscapeSequence,
    Interpolation,
    UnterminatedString,
    ExpectedAttributeName,
    Expected(char),
}

/// What went wrong, the key it is about (empty if none), and the character position.
pub type Failure = (ErrorKind, Seq<char>, int);

/// A glossary entry: the lowercased name and its definition.
pub type EntrySpec = (Seq<char>, Option<Seq<char>>);

pub open spec fn is_space(c: char) -> bool {
    c == ' ' || c == '\t' || c == '\n' || c == '\r' || c == '\x0C'
}

pub open spec fn is_ident_char(c: char) -> bool {
    ('a' <= c && c <= 'z') || ('A' <= c && c <= 'Z') || ('0' <= c && c <= '9') || c == '_' || c == '-'
}

/// The position after whitespace and `#` comments from `i` on; `comment` says that `i` is inside
/// a comment, which runs to the end of its line.
pub open spec fn skip(s: Seq<char>, i: int, comment: bool) -> int
    decreases s.len() - i,
{
    if i < 0 || i >= s.len() {
        i
    } else if comment {
        skip(s, i + 1, s[i] != '\n')
    } else if is_space(s[i]) {
        skip(s, i + 1, false)
    } else if s[i] == '#' {
        skip(s, i + 1, true)
    } else {
        i
    }
}

pub proof fn lemma_skip_bounds(s: Seq<char>, i: int, comment: bool)
    requires
        0 <= i <= s.len(),
    ensures
        i <= skip(s, i, comment) <= s.len(),
    decreases s.len() - i,
{
    if i < s.len() {
        if comment {
            lemma_skip_bounds(s, i + 1, s[i] != '\n');
        } else if is_space(s[i]) {
            lemma_skip_bounds(s, i + 1, false);
        } else if s[i] == '#' {
            lemma_skip_bounds(s, i + 1, true);
        }
    }
}

/// Position `j` lies in a comment that opened at or after `k`: a `#` at or after `k`, and no line
/// break from it up to `j`.
pub open spec fn in_comment(s: Seq<char>, k: int, j: int) -> bool {
    exists|m: int| k <= m <= j && #[trigger] s[m] == '#' && forall|t: int| m <= t < j ==> s[t] != '\n'
}

proof fn lemma_skip_consumes(s: Seq<char>, k: int, i: int, comment: bool)
    requires
        0 <= k <= i <= s.len(),
        comment ==> in_comment(s, k, i),
    ensures
        forall|j: int| i <= j < skip(s, i, comment) ==> is_space(#[trigger] s[j]) || in_comment(s, k, j),
        skip(s, i, comment) < s.len() ==> !is_space(s[skip(s, i, comment)]) && s[skip(s, i, comment)] != '#',
    decreases s.len() - i,
{
    if i < s.len() {
        let c2 = if comment { s[i] != '\n' } else if is_space(s[i]) { false } else { s[i] == '#' };
        if comment {
            let m = choose|m: int| k <= m <= i && #[trigger] s[m] == '#' && forall|t: int| m <= t < i ==> s[t] != '\n';
            if c2 {
                assert(in_comment(s, k, i + 1)) by {
                    assert(s[m] == '#');
                    assert forall|t: int| m <= t < i + 1 implies s[t] != '\n' by {}
                }
            }
            lemma_skip_consumes(s, k, i + 1, c2);
        } else if is_space(s[i]) {
            lemma_skip_consumes(s, k, i + 1, false);
        } else if s[i] == '#' {
            assert(in_comment(s, k, i)) by {
                assert(s[i] == '#');
            }
            assert(in_comment(s, k, i + 1)) by {
                assert(s[i] == '#');
                assert forall|t: int| i <= t < i + 1 implies s[t] != '\n' by {}
            }
            lemma_skip_consumes(s, k, i + 1, true);
        }
    }
}

/// What `space` skips: from `k` it stops at the first character that is neither blank nor `#`,
/// or at the end, and everything it passes is blank or inside a comment; skipping again from
/// there moves nowhere.
pub proof fn space_skips_blanks_and_comments(s: Seq<char>, k: int)
    requires
        0 <= k <= s.len(),
    ensures
        k <= space(s, k) <= s.len(),
        space(s, k) < s.len() ==> !is_space(s[space(s, k)]) && s[space(s, k)] != '#',
        space(s, space(s, k)) == space(s, k),
        forall|j: int| k <= j < space(s, k) ==> is_space(#[trigger] s[j]) || in_comment(s, k, j),
{
    lemma_skip_bounds(s, k, false);
    lemma_skip_consumes(s, k, k, false);
}

pub open spec fn space(s: Seq<char>, i: int) -> int {
    skip(s, i, false)
}

/// Whether `c` comes next after whitespace, and the position after it if so (else after the
/// whitespace).
pub open spec fn eat(s: Seq<char>, i: int, c: char) -> (bool, int) {
    let j = space(s, i);
    if 0 <= j < s.len() && s[j] == c {
        (true, j + 1)
    } else {
        (false, j)
    }
}

pub open spec fn expect(s: Seq<char>, i: int, c: char) -> Result<int, Failure> {
    let (found, j) = eat(s, i, c);
    if found {
        Ok(j)
    } else {
        Err((ErrorKind::Expected(c), Seq::empty(), j))
    }
}

pub open spec fn ident_end(s: Seq<char>, j: int) -> int
    decreases s.len() - j,
{
    if 0 <= j < s.len() && is_ident_char(s[j]) {
        ident_end(s, j + 1)
    } else {
        j
    }
}

pub open spec fn ident(s: Seq<char>, i: int) -> Result<(Seq<char>, int), Failure> {
    let j = space(s, i);
    let k = ident_end(s, j);
    if k == j {
        Err((ErrorKind::ExpectedAttributeName, Seq::empty(), j))
    } else {
        Ok((s.subrange(j, k), k))
    }
}

/// The position of the closing quote of a string whose body starts at `k`.
pub open spec fn string_end(s: Seq<char>, k: int) -> Result<int, Failure>
    decreases s.len() - k,
{
    if k < 0 || k >= s.len() {
        Err((ErrorKind::UnterminatedString, Seq::empty(), k))
    } else if s[k] == '"' {
        Ok(k)
    } else if s[k] == '\\' {
        Err((ErrorKind::EscapeSequence, Seq::empty(), k))
    } else if s[k] == '$' && k + 1 < s.len() && s[k + 1] == '{' {
        Err((ErrorKind::Interpolation, Seq::empty(), k))
    } else {
        string_end(s, k + 1)
    }
}

pub open spec fn string(s: Seq<char>, i: int) -> Result<(Seq<char>, int), Failure> {
    match expect(s, i, '"') {
        Err(e) => Err(e),
        Ok(j) => match string_end(s, j) {
            Err(e) => Err(e),
            Ok(q) => Ok((s.subrange(j, q), q + 1)),
        },
    }
}

/// The fields of `{ name = "..."; desc = "..."; }` from `i` on, given those read so far.
pub open spec fn entry_fields(s: Seq<char>, i: int, name: Option<Seq<char>>, desc: Option<Seq<char>>) -> Result<(EntrySpec, int), Failure>
    decreases s.len() - i,
{
    let (closed, j) = eat(s, i, '}');
    if closed {
        match name {
            None => Err((ErrorKind::EntryWithoutName, Seq::empty(), j)),
            Some(n) => Ok(((n, desc), j)),
        }
    } else {
        match ident(s, j) {
            Err(e) => Err(e),
            Ok((key, k1)) => match expect(s, k1, '=') {
                Err(e) => Err(e),
                Ok(k2) => match string(s, k2) {
                    Err(e) => Err(e),
                    Ok((value, k3)) => match expect(s, k3, ';') {
                        Err(e) => Err(e),
                        Ok(k4) => if key == "name"@ {
                            if i < k4 <= s.len() {
                                entry_fields(s, k4, Some(lowercase(value)), desc)
                            } else {
                                Err((ErrorKind::ExpectedAttributeName, Seq::empty(), k4))
                            }
                        } else if key == "desc"@ {
                            if i < k4 <= s.len() {
                                entry_fields(s, k4, name, Some(value))
                            } else {
                                Err((ErrorKind::ExpectedAttributeName, Seq::empty(), k4))
                            }
                        } else {
                            Err((ErrorKind::NotAnEntryField, key, k4))
                        },
                    },
                },
            },
        }
    }
}

/// A bare string and `{ name = "x"; }` mean the same thing.
pub open spec fn entry(s: Seq<char>, i: int) -> Result<(EntrySpec, int), Failure> {
    let (open, j) = eat(s, i, '{');
    if !open {
        match string(s, j) {
            Err(e) => Err(e),
            Ok((v, k)) => Ok(((lowercase(v), None), k)),
        }
    } else {
        entry_fields(s, j, None, None)
    }
}

pub open spec fn list_items(s: Seq<char>, i: int, acc: Seq<EntrySpec>) -> Result<(Seq<EntrySpec>, int), Failure>
    decreases s.len() - i,
{
    let (closed, j) = eat(s, i, ']');
    if closed {
        Ok((acc, j))
    } else {
        match entry(s, j) {
            Err(e) => Err(e),
            Ok((e, k)) => if i < k <= s.len() {
                list_items(s, k, acc.push(e))
            } else {
                Err((ErrorKind::ExpectedAttributeName, Seq::empty(), k))
            },
        }
    }
}

pub open spec fn list(s: Seq<char>, i: int) -> Result<(Seq<EntrySpec>, int), Failure> {
    match expect(s, i, '[') {
        Err(e) => Err(e),
        Ok(j) => list_items(s, j, Seq::empty()),
    }
}

/// The terms after reading `es` in order into `m`: a later entry for a term replaces an
/// earlier one.
pub open spec fn extend(m: Terms, es: Seq<EntrySpec>) -> Terms
    decreases es.len(),
{
    if es.len() == 0 {
        m
    } else {
        extend(m, es.drop_last()).insert(es.last().0, es.last().1)
    }
}

pub open spec fn glossary_items(s: Seq<char>, i: int, g: (Terms, Terms)) -> Result<((Terms, Terms), int), Failure>
    decreases s.len() - i,
{
    let (closed, j) = eat(s, i, '}');
    if closed {
        Ok((g, j))
    } else {
        match ident(s, j) {
            Err(e) => Err(e),
            Ok((key, k1)) => match expect(s, k1, '=') {
                Err(e) => Err(e),
                Ok(k2) => match list(s, k2) {
                    Err(e) => Err(e),
                    Ok((es, k3)) => match expect(s, k3, ';') {
                        Err(e) => Err(e),
                        Ok(k4) => if key == "names"@ {
                            if i < k4 <= s.len() {
                                glossary_items(s, k4, (extend(g.0, es), g.1))
                            } else {
                                Err((ErrorKind::ExpectedAttributeName, Seq::empty(), k4))
                            }
                        } else if key == "verbs"@ {
                            if i < k4 <= s.len() {
                                glossary_items(s, k4, (g.0, extend(g.1, es)))
                            } else {
                                Err((ErrorKind::ExpectedAttributeName, Seq::empty(), k4))
                            }
                        } else {
                            Err((ErrorKind::NotAGlossaryKey, key, k4))
                        },
                    },
                },
            },
        }
    }
}

pub open spec fn glossary(s: Seq<char>, i: int) -> Result<((Terms, Terms), int), Failure> {
    match expect(s, i, '{') {
        Err(e) => Err(e),
        Ok(j) => glossary_items(s, j, (Terms::empty(), Terms::empty())),
    }
}

/// What a glossary file says: its two lists of terms, or the first thing in it that is not
/// part of the grammar.
pub open spec fn parse_glossary(s: Seq<char>) -> Result<(Terms, Terms), Failure> {
    match glossary(s, 0) {
        Err(e) => Err(e),
        Ok((g, k)) => {
                let end = space(s, k);
            if end != s.len() {
                Err((ErrorKind::ExpectedEndOfFile, Seq::empty(), end))
            } else {
                Ok(g)
            }
        },
    }
}

/// The number of line breaks in `s`.
pub open spec fn newlines(s: Seq<char>) -> nat
    decreases s.len(),
{
    if s.len() == 0 {
        0
    } else {
        newlines(s.drop_last()) + if s.last() == '\n' { 1nat } else { 0nat }
    }
}

/// The number of bytes in the last line of `s`.
pub open spec fn last_line_bytes(s: Seq<char>) -> nat
    decreases s.len(),
{
    if s.len() == 0 {
        0
    } else if s.last() == '\n' {
        0
    } else {
        last_line_bytes(s.drop_last()) + utf8_len(s.last())
    }
}

} // verus!

verus! {

/// Why a glossary file was refused, and where: `line` and `column` count from 1, and the
/// column counts bytes, as an editor does.
#[derive(Clone, Debug, PartialEq, Eq)]
pub struct GlossaryError {
    pub kind: ErrorKind,
    /// The unknown key, for `NotAGlossaryKey` and `NotAnEntryField`; empty otherwise.
    pub key: String,
    pub line: usize,
    pub column: usize,
}

/// `n`, or `usize::MAX` if it does not fit.
pub open spec fn saturate(n: nat) -> nat {
    if n > usize::MAX { usize::MAX as nat } else { n }
}

/// The error a failure at a character position of `s` is reported as.
pub open spec fn located(e: GlossaryError, s: Seq<char>, f: Failure) -> bool {
    &&& e.kind == f.0
    &&& e.key@ == f.1
    &&& e.line == saturate(newlines(s.take(f.2)) + 1)
    &&& e.column == saturate(last_line_bytes(s.take(f.2)) + 1)
}

struct Fail {
    kind: ErrorKind,
    key: Vec<char>,
    at: usize,
}

spec fn fails_as(f: Fail, e: Failure, len: nat) -> bool {
    f.kind == e.0 && f.key@ == e.1 && f.at as int == e.2 && f.at <= len
}

spec fn entry_view(e: (String, Option<String>)) -> EntrySpec {
    (e.0@, opt_view(e.1))
}

spec fn entries_view(es: Seq<(String, Option<String>)>) -> Seq<EntrySpec> {
    es.map_values(|e: (String, Option<String>)| entry_view(e))
}

struct Parser {
    src: Vec<char>,
    i: usize,
}

fn is_space_char(c: char) -> (b: bool)
    ensures
        b == is_space(c),
{
    c == ' ' || c == '\t' || c == '\n' || c == '\r' || c == '\x0C'
}

fn is_ident_char_exec(c: char) -> (b: bool)
    ensures
        b == is_ident_char(c),
{
    ('a' <= c && c <= 'z') || ('A' <= c && c <= 'Z') || ('0' <= c && c <= '9') || c == '_' || c == '-'
}

impl Parser {
    fn fail(&self, kind: ErrorKind) -> (f: Fail)
        requires
            self.i <= self.src@.len(),
        ensures
            fails_as(f, (kind, Seq::empty(), self.i as int), self.src@.len()),
    {
        let f = Fail { kind, key: Vec::new(), at: self.i };
        assert(f.key@ =~= Seq::<char>::empty());
        f
    }

    fn space(&mut self)
        requires
            old(self).i <= old(self).src@.len(),
        ensures
            final(self).src@ == old(self).src@,
            final(self).i == space(old(self).src@, old(self).i as int),
            old(self).i <= final(self).i <= final(self).src@.len(),
    {
        proof {
            lemma_skip_bounds(self.src@, self.i as int, false);
        }
        let ghost s = self.src@;
        let ghost i0 = self.i as int;
        let mut comment = false;
        while self.i < self.src.len()
            invariant
                self.src@ == s,
                s == old(self).src@,
                i0 == old(self).i,
                i0 <= self.i <= s.len(),
                skip(s, self.i as int, comment) == skip(s, i0, false),
            decreases s.len() - self.i,
        {
            let c = self.src[self.i];
            if comment {
                comment = c != '\n';
                self.i = self.i + 1;
            } else if is_space_char(c) {
                self.i = self.i + 1;
            } else if c == '#' {
                comment = true;
                self.i = self.i + 1;
            } else {
                return;
            }
        }
    }

    fn eat(&mut self, c: char) -> (found: bool)
        requires
            old(self).i <= old(self).src@.len(),
        ensures
            final(self).src@ == old(self).src@,
            (found, final(self).i as int) == eat(old(self).src@, old(self).i as int, c),
            old(self).i <= final(self).i <= final(self).src@.len(),
    {
        self.space();
        if self.i < self.src.len() && self.src[self.i] == c {
            self.i = self.i + 1;
            true
        } else {
            false
        }
    }

    fn expect(&mut self, c: char) -> (r: Result<(), Fail>)
        requires
            old(self).i <= old(self).src@.len(),
        ensures
            final(self).src@ == old(self).src@,
            old(self).i <= final(self).i <= final(self).src@.len(),
            match (r, expect(old(self).src@, old(self).i as int, c)) {
                (Ok(_), Ok(j)) => final(self).i == j,
                (Err(f), Err(e)) => fails_as(f, e, old(self).src@.len()),
                _ => false,
            },
    {
        if self.eat(c) {
            Ok(())
        } else {
            Err(self.fail(ErrorKind::Expected(c)))
        }
    }

    fn ident(&mut self) -> (r: Result<Vec<char>, Fail>)
        requires
            old(self).i <= old(self).src@.len(),
        ensures
            final(self).src@ == old(self).src@,
            old(self).i <= final(self).i <= final(self).src@.len(),
            match (r, ident(old(self).src@, old(self).i as int)) {
                (Ok(v), Ok((k, j))) => v@ == k && final(self).i == j && j > old(self).i,
                (Err(f), Err(e)) => fails_as(f, e, old(self).src@.len()),
                _ => false,
            },
    {
        proof {
            lemma_skip_bounds(self.src@, self.i as int, false);
        }
        self.space();
        let ghost s = self.src@;
        let start = self.i;
        let mut out: Vec<char> = Vec::new();
        while self.i < self.src.len() && is_ident_char_exec(self.src[self.i])
            invariant
                self.src@ == s,
                s == old(self).src@,
                old(self).i <= start,
                start == space(s, old(self).i as int),
                start <= self.i <= s.len(),
                ident_end(s, self.i as int) == ident_end(s, start as int),
                out@ == s.subrange(start as int, self.i as int),
            decreases s.len() - self.i,
        {
            out.push(self.src[self.i]);
            self.i = self.i + 1;
            assert(out@ =~= s.subrange(start as int, self.i as int));
        }
        if self.i == start {
            return Err(self.fail(ErrorKind::ExpectedAttributeName));
        }
        Ok(out)
    }

    fn string(&mut self) -> (r: Result<Vec<char>, Fail>)
        requires
            old(self).i <= old(self).src@.len(),
        ensures
            final(self).src@ == old(self).src@,
            old(self).i <= final(self).i <= final(self).src@.len(),
            match (r, string(old(self).src@, old(self).i as int)) {
                (Ok(v), Ok((k, j))) => v@ == k && final(self).i == j && j > old(self).i,
                (Err(f), Err(e)) => fails_as(f, e, old(self).src@.len()),
                _ => false,
            },
    {
        proof {
            lemma_skip_bounds(self.src@, self.i as int, false);
        }
        match self.expect('"') {
            Err(f) => return Err(f),
            Ok(()) => {},
        }
        let ghost s = self.src@;
        let start = self.i;
        let mut out: Vec<char> = Vec::new();
        while self.i < self.src.len()
            invariant
                self.src@ == s,
                s == old(self).src@,
                expect(s, old(self).i as int, '"') == Ok::<int, Failure>(start as int),
                old(self).i < start,
                start <= self.i <= s.len(),
                string_end(s, self.i as int) == string_end(s, start as int),
                out@ == s.subrange(start as int, self.i as int),
            decreases s.len() - self.i,
        {
            let c = self.src[self.i];
            if c == '"' {
                self.i = self.i + 1;
                return Ok(out);
            } else if c == '\\' {
                return Err(self.fail(ErrorKind::EscapeSequence));
            } else if c == '$' && self.i + 1 < self.src.len() && self.src[self.i + 1] == '{' {
                return Err(self.fail(ErrorKind::Interpolation));
            }
            out.push(c);
            self.i = self.i + 1;
            assert(out@ =~= s.subrange(start as int, self.i as int));
        }
        Err(self.fail(ErrorKind::UnterminatedString))
    }

    fn entry(&mut self) -> (r: Result<(String, Option<String>), Fail>)
        requires
            old(self).i <= old(self).src@.len(),
        ensures
            final(self).src@ == old(self).src@,
            old(self).i <= final(self).i <= final(self).src@.len(),
            match (r, entry(old(self).src@, old(self).i as int)) {
                (Ok(e), Ok((es, j))) => entry_view(e) == es && final(self).i == j && j > old(self).i,
                (Err(f), Err(e)) => fails_as(f, e, old(self).src@.len()),
                _ => false,
            },
    {
        proof {
            lemma_skip_bounds(self.src@, self.i as int, false);
        }
        if !self.eat('{') {
            match self.string() {
                Err(f) => return Err(f),
                Ok(v) => {
                    let raw = string_from(&v);
                    return Ok((to_lowercase(raw.as_str()), None));
                },
            }
        }
        let ghost s = self.src@;
        let ghost j0 = self.i;
        let mut name: Option<String> = None;
        let mut desc: Option<String> = None;
        loop
            invariant
                self.src@ == s,
                s == old(self).src@,
                self.i <= s.len(),
                old(self).i < j0 <= self.i,
                eat(s, old(self).i as int, '{') == (true, j0 as int),
                entry_fields(s, self.i as int, opt_view(name), opt_view(desc)) == entry_fields(s, j0 as int, None, None),
            decreases s.len() - self.i,
        {
            proof {
                lemma_skip_bounds(s, self.i as int, false);
            }
            let ghost here = self.i as int;
            if self.eat('}') {
                match name {
                    None => return Err(self.fail(ErrorKind::EntryWithoutName)),
                    Some(n) => return Ok((n, desc)),
                }
            }
            let key = match self.ident() {
                Err(f) => return Err(f),
                Ok(k) => k,
            };
            match self.expect('=') {
                Err(f) => return Err(f),
                Ok(()) => {},
            }
            proof {
                lemma_skip_bounds(s, self.i as int, false);
            }
            let value = match self.string() {
                Err(f) => return Err(f),
                Ok(v) => v,
            };
            match self.expect(';') {
                Err(f) => return Err(f),
                Ok(()) => {},
            }
            let key_s = string_from(&key);
            if str_eq(key_s.as_str(), "name") {
                let raw = string_from(&value);
                name = Some(to_lowercase(raw.as_str()));
            } else if str_eq(key_s.as_str(), "desc") {
                desc = Some(string_from(&value));
            } else {
                return Err(Fail { kind: ErrorKind::NotAnEntryField, key, at: self.i });
            }
        }
    }

    fn list(&mut self) -> (r: Result<Vec<(String, Option<String>)>, Fail>)
        requires
            old(self).i <= old(self).src@.len(),
        ensures
            final(self).src@ == old(self).src@,
            old(self).i <= final(self).i <= final(self).src@.len(),
            match (r, list(old(self).src@, old(self).i as int)) {
                (Ok(v), Ok((es, j))) => entries_view(v@) == es && final(self).i == j,
                (Err(f), Err(e)) => fails_as(f, e, old(self).src@.len()),
                _ => false,
            },
    {
        match self.expect('[') {
            Err(f) => return Err(f),
            Ok(()) => {},
        }
        let ghost s = self.src@;
        let ghost j0 = self.i;
        let mut out: Vec<(String, Option<String>)> = Vec::new();
        assert(entries_view(out@) =~= Seq::<EntrySpec>::empty());
        loop
            invariant
                self.src@ == s,
                s == old(self).src@,
                old(self).i <= j0 <= self.i <= s.len(),
                expect(s, old(self).i as int, '[') == Ok::<int, Failure>(j0 as int),
                list_items(s, self.i as int, entries_view(out@)) == list_items(s, j0 as int, Seq::empty()),
            decreases s.len() - self.i,
        {
            let ghost here = self.i;
            let ghost before = out@;
            if self.eat(']') {
                return Ok(out);
            }
            let e = match self.entry() {
                Err(f) => return Err(f),
                Ok(e) => e,
            };
            out.push(e);
            assert(entries_view(out@) =~= entries_view(before).push(entry_view(e)));
        }
    }

    fn glossary(&mut self) -> (r: Result<Glossary, Fail>)
        requires
            old(self).i <= old(self).src@.len(),
        ensures
            final(self).src@ == old(self).src@,
            old(self).i <= final(self).i <= final(self).src@.len(),
            match (r, glossary(old(self).src@, old(self).i as int)) {
                (Ok(g), Ok((t, j))) => g@ == t && final(self).i == j,
                (Err(f), Err(e)) => fails_as(f, e, old(self).src@.len()),
                _ => false,
            },
    {
        match self.expect('{') {
            Err(f) => return Err(f),
            Ok(()) => {},
        }
        let ghost s = self.src@;
        let ghost j0 = self.i;
        let mut g = Glossary::default();
        loop
            invariant
                self.src@ == s,
                s == old(self).src@,
                old(self).i <= j0 <= self.i <= s.len(),
                expect(s, old(self).i as int, '{') == Ok::<int, Failure>(j0 as int),
                glossary_items(s, self.i as int, g@) == glossary_items(s, j0 as int, (Terms::empty(), Terms::empty())),
            decreases s.len() - self.i,
        {
            let ghost here = self.i;
            if self.eat('}') {
                return Ok(g);
            }
            let key = match self.ident() {
                Err(f) => return Err(f),
                Ok(k) => k,
            };
            match self.expect('=') {
                Err(f) => return Err(f),
                Ok(()) => {},
            }
            let entries = match self.list() {
                Err(f) => return Err(f),
                Ok(v) => v,
            };
            match self.expect(';') {
                Err(f) => return Err(f),
                Ok(()) => {},
            }
            let key_s = string_from(&key);
            if str_eq(key_s.as_str(), "names") {
                extend_terms(&mut g.names, &entries);
            } else if str_eq(key_s.as_str(), "verbs") {
                extend_terms(&mut g.verbs, &entries);
            } else {
                return Err(Fail { kind: ErrorKind::NotAGlossaryKey, key, at: self.i });
            }
        }
    }

    /// Where a failure is, in lines and bytes.
    fn locate(&self, f: Fail) -> (e: GlossaryError)
        requires
            f.at <= self.src@.len(),
        ensures
            located(e, self.src@, (f.kind, f.key@, f.at as int)),
    {
        let ghost s = self.src@;
        let mut line: usize = 1;
        let mut column: usize = 1;
        let mut k: usize = 0;
        assert(s.take(0) =~= Seq::<char>::empty());
        while k < f.at
            invariant
                self.src@ == s,
                f.at <= s.len(),
                k <= f.at,
                line == saturate(newlines(s.take(k as int)) + 1),
                column == saturate(last_line_bytes(s.take(k as int)) + 1),
            decreases f.at - k,
        {
            let c = self.src[k];
            assert(s.take(k + 1).drop_last() =~= s.take(k as int));
            if c == '\n' {
                line = line.saturating_add(1);
                column = 1;
            } else {
                column = column.saturating_add(char_utf8_len(c));
            }
            k = k + 1;
        }
        GlossaryError { kind: f.kind, key: string_from(&f.key), line, column }
    }
}

fn extend_terms(m: &mut StrMap<Option<String>>, es: &Vec<(String, Option<String>)>)
    ensures
        terms(*final(m)) == extend(terms(*old(m)), entries_view(es@)),
{
    let ghost start = terms(*m);
    let mut k: usize = 0;
    assert(entries_view(es@).take(0) =~= Seq::<EntrySpec>::empty());
    while k < es.len()
        invariant
            k <= es@.len(),
            terms(*m) == extend(start, entries_view(es@).take(k as int)),
        decreases es@.len() - k,
    {
        let ghost before = *m;
        let key = es[k].0.clone();
        let value = match &es[k].1 {
            Some(d) => Some(d.clone()),
            None => None,
        };
        m.insert(key, value);
        assert(terms(*m) =~= terms(before).insert(es@[k as int].0@, opt_view(es@[k as int].1)));
        assert(entries_view(es@).take(k + 1).drop_last() =~= entries_view(es@).take(k as int));
        k = k + 1;
    }
    assert(entries_view(es@).take(es@.len() as int) =~= entries_view(es@));
}

impl Glossary {
    /// Reads a glossary file. The result is what the grammar says the text means; on a refusal
    /// it is the first place, in lines and bytes, where the text leaves the grammar.
    pub fn parse(src: &str) -> (r: Result<Glossary, GlossaryError>)
        ensures
            match (r, parse_glossary(src@)) {
                (Ok(g), Ok(t)) => g@ == t,
                (Err(e), Err(f)) => located(e, src@, f),
                _ => false,
            },
    {
        let mut p = Parser { src: crate::text::chars_of(src), i: 0 };
        let g = match p.glossary() {
            Err(f) => return Err(p.locate(f)),
            Ok(g) => g,
        };
        p.space();
        if p.i != p.src.len() {
            let f = p.fail(ErrorKind::ExpectedEndOfFile);
            return Err(p.locate(f));
        }
        Ok(g)
    }
}

} // verus!

verus! {

/// What an error says, after its place.
pub open spec fn kind_text(kind: ErrorKind, key: Seq<char>) -> Seq<char> {
    match kind {
        ErrorKind::ExpectedEndOfFile => "expected end of file"@,
        ErrorKind::NotAGlossaryKey => "`"@ + key + "` is not a glossary key; expected `names` or `verbs`"@,
        ErrorKind::NotAnEntryField => "`"@ + key + "` is not an entry field; expected `name` or `desc`"@,
        ErrorKind::EntryWithoutName => "entry has no `name`"@,
        ErrorKind::EscapeSequence => "escape sequences are not supported here"@,
        ErrorKind::Interpolation => "string interpolation is not supported here"@,
        ErrorKind::UnterminatedString => "unterminated string"@,
        ErrorKind::ExpectedAttributeName => "expected an attribute name"@,
        ErrorKind::Expected(c) => "expected `"@ + seq![c] + "`"@,
    }
}

/// The message of an error: its line and column, then what went wrong.
pub open spec fn message_text(e: GlossaryError) -> Seq<char> {
    "line "@ + decimal(e.line as nat) + ", column "@ + decimal(e.column as nat) + ": "@ + kind_text(e.kind, e.key@)
}

impl GlossaryError {
    /// The error as a sentence, such as "line 3, column 7: expected `=`".
    pub fn message(&self) -> (m: String)
        ensures
            m@ == message_text(*self),
    {
        let mut out: Vec<char> = Vec::new();
        push_str(&mut out, "line ");
        push_decimal(&mut out, self.line);
        push_str(&mut out, ", column ");
        push_decimal(&mut out, self.column);
        push_str(&mut out, ": ");
        let ghost head = out@;
        match self.kind {
            ErrorKind::ExpectedEndOfFile => push_str(&mut out, "expected end of file"),
            ErrorKind::NotAGlossaryKey => {
                push_str(&mut out, "`");
                push_str(&mut out, self.key.as_str());
                push_str(&mut out, "` is not a glossary key; expected `names` or `verbs`");
            },
            ErrorKind::NotAnEntryField => {
                push_str(&mut out, "`");
                push_str(&mut out, self.key.as_str());
                push_str(&mut out, "` is not an entry field; expected `name` or `desc`");
            },
            ErrorKind::EntryWithoutName => push_str(&mut out, "entry has no `name`"),
            ErrorKind::EscapeSequence => push_str(&mut out, "escape sequences are not supported here"),
            ErrorKind::Interpolation => push_str(&mut out, "string interpolation is not supported here"),
            ErrorKind::UnterminatedString => push_str(&mut out, "unterminated string"),
            ErrorKind::ExpectedAttributeName => push_str(&mut out, "expected an attribute name"),
            ErrorKind::Expected(c) => {
                push_str(&mut out, "expected `");
                out.push(c);
                push_str(&mut out, "`");
            },
        }
        assert(out@ =~= head + kind_text(self.kind, self.key@));
        string_from(&out)
    }
}

} // verus!
