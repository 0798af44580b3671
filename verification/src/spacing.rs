//! Spacing is not part of the grammar: a glossary written with any blanks and comments between
//! its tokens reads back as the same terms.
use vstd::prelude::*;
use crate::glossary::{
    skip, space, eat, expect, ident, string, string_end, entry_fields, entry, list, list_items, glossary_items,
    parse_glossary,
    extend, is_space, is_ident_char, Terms, EntrySpec,
};
use crate::readback::{
    at, plain, Written, read_back, read_written_section, writes_out, lemma_at_concat, lemma_at_char, lemma_at_subrange, lemma_ident_end,
    lemma_string_end, lemma_reads_back_as, lemma_at_self,
};
use crate::text::{lowercase, is_ascii_text, is_lowercase_ascii, lemma_ascii_lowercase, ascii_lower, ascii_lower_char};

verus! {

/// Whether `g` from `i` on is blanks and comments, `comment` saying that `i` lies inside a
/// comment. A comment runs from `#` through its line break; only at the end of a file (`last`)
/// may that line break be missing.
pub open spec fn gap_from(g: Seq<char>, i: int, comment: bool, last: bool) -> bool
    decreases g.len() - i,
{
    if i < 0 {
        false
    } else if i >= g.len() {
        last || !comment
    } else if comment {
        gap_from(g, i + 1, g[i] != '\n', last)
    } else if is_space(g[i]) {
        gap_from(g, i + 1, false, last)
    } else if g[i] == '#' {
        gap_from(g, i + 1, true, last)
    } else {
        false
    }
}

/// Text that may stand between two tokens: blanks and whole comments, or nothing.
pub open spec fn is_gap(g: Seq<char>) -> bool {
    gap_from(g, 0, false, false)
}

/// Text that may end a file after its last token: blanks and comments, the last of which may
/// run to the end of the file.
pub open spec fn is_tail(g: Seq<char>) -> bool {
    gap_from(g, 0, false, true)
}

pub open spec fn quoted(w: Seq<char>) -> Seq<char> {
    "\""@ + w + "\""@
}

/// The tokens from the `k`th on, each after the gap before it.
pub open spec fn lexemes(gaps: Seq<Seq<char>>, toks: Seq<Seq<char>>, k: int) -> Seq<char>
    decreases toks.len() - k,
{
    if k < 0 || k >= toks.len() {
        Seq::empty()
    } else {
        gaps[k] + toks[k] + lexemes(gaps, toks, k + 1)
    }
}

/// The tokens of an entry: a bare string, or `{ name = "..."; }` with `desc = "...";` after the
/// name when there is a definition.
pub open spec fn entry_tokens(e: Written) -> Seq<Seq<char>> {
    match e.1 {
        Some(d) => seq!["{"@, "name"@, "="@, quoted(e.0), ";"@, "desc"@, "="@, quoted(d), ";"@, "}"@],
        None => if e.2 {
            seq![quoted(e.0)]
        } else {
            seq!["{"@, "name"@, "="@, quoted(e.0), ";"@, "}"@]
        },
    }
}

/// An entry and the gaps before its tokens.
pub type SpacedEntry = (Written, Seq<Seq<char>>);

pub open spec fn spaced_entry(e: SpacedEntry) -> Seq<char> {
    lexemes(e.1, entry_tokens(e.0), 0)
}

pub open spec fn spaced_entries(es: Seq<SpacedEntry>) -> Seq<char>
    decreases es.len(),
{
    if es.len() == 0 {
        Seq::empty()
    } else {
        spaced_entry(es[0]) + spaced_entries(es.drop_first())
    }
}

pub open spec fn opening_tokens(list: Seq<char>) -> Seq<Seq<char>> {
    seq![list, "="@, "["@]
}

pub open spec fn closing_tokens() -> Seq<Seq<char>> {
    seq!["]"@, ";"@]
}

/// `list = [ entries ];`, with the gaps `g` before `list`, `=`, `[`, `]` and `;`.
pub open spec fn spaced_section(list: Seq<char>, g: Seq<Seq<char>>, es: Seq<SpacedEntry>) -> Seq<char> {
    lexemes(g, opening_tokens(list), 0) + spaced_entries(es) + lexemes(g.subrange(3, g.len() as int), closing_tokens(), 0)
}

/// A glossary file: `{`, the names, the verbs, `}`, with the gaps `g` before each brace and the
/// tail after the closing one.
pub open spec fn spaced_glossary(
    g: Seq<Seq<char>>,
    ng: Seq<Seq<char>>,
    ns: Seq<SpacedEntry>,
    vg: Seq<Seq<char>>,
    vs: Seq<SpacedEntry>,
) -> Seq<char> {
    g[0] + "{"@ + spaced_section("names"@, ng, ns) + spaced_section("verbs"@, vg, vs) + g[1] + "}"@ + g[2]
}

pub open spec fn all_gaps(g: Seq<Seq<char>>) -> bool {
    forall|k: int| 0 <= k < g.len() ==> is_gap(#[trigger] g[k])
}

/// An entry whose name and definition a Nix string holds as they are, with a gap before each of
/// its tokens.
pub open spec fn spaced_entry_ok(e: SpacedEntry) -> bool {
    &&& e.1.len() == entry_tokens(e.0).len()
    &&& all_gaps(e.1)
    &&& plain(e.0.0)
    &&& e.0.1 matches Some(d) ==> plain(d)
}

pub open spec fn spaced_entries_ok(es: Seq<SpacedEntry>) -> bool {
    forall|j: int| 0 <= j < es.len() ==> spaced_entry_ok(#[trigger] es[j])
}

pub open spec fn written_of(es: Seq<SpacedEntry>) -> Seq<Written> {
    es.map_values(|e: SpacedEntry| e.0)
}

/// A gap is passed over whole.
proof fn lemma_gap(s: Seq<char>, p: int, g: Seq<char>, i: int, comment: bool)
    requires
        at(s, p, g),
        0 <= i <= g.len(),
        gap_from(g, i, comment, false),
    ensures
        skip(s, p + i, comment) == skip(s, p + g.len(), false),
    decreases g.len() - i,
{
    if i < g.len() {
        lemma_at_char(s, p, g, i);
        let next = if comment { g[i] != '\n' } else if is_space(g[i]) { false } else { true };
        lemma_gap(s, p, g, i + 1, next);
    }
}

/// A tail is passed over to the end of the file.
proof fn lemma_tail(s: Seq<char>, p: int, g: Seq<char>, i: int, comment: bool)
    requires
        at(s, p, g),
        p + g.len() == s.len(),
        0 <= i <= g.len(),
        gap_from(g, i, comment, true),
    ensures
        skip(s, p + i, comment) == s.len(),
    decreases g.len() - i,
{
    if i < g.len() {
        lemma_at_char(s, p, g, i);
        let next = if comment { g[i] != '\n' } else if is_space(g[i]) { false } else { true };
        lemma_tail(s, p, g, i + 1, next);
    }
}

proof fn lemma_gap_first(g: Seq<char>)
    requires
        is_gap(g),
        g.len() > 0,
    ensures
        is_space(g[0]) || g[0] == '#',
{
}

/// The parser passes over the gap before a token and finds the token there.
proof fn lemma_head(s: Seq<char>, i: int, gaps: Seq<Seq<char>>, toks: Seq<Seq<char>>, k: int, rest: Seq<char>)
    requires
        0 <= k < toks.len(),
        k < gaps.len(),
        at(s, i, lexemes(gaps, toks, k) + rest),
        is_gap(gaps[k]),
        toks[k].len() > 0,
        !is_space(toks[k][0]),
        toks[k][0] != '#',
    ensures
        space(s, i) == i + gaps[k].len(),
        i + gaps[k].len() < s.len(),
        s[i + gaps[k].len()] == toks[k][0],
        at(s, i + gaps[k].len(), toks[k]),
        at(s, i + gaps[k].len() + toks[k].len(), lexemes(gaps, toks, k + 1) + rest),
        (lexemes(gaps, toks, k) + rest).len() == gaps[k].len() + toks[k].len() + (lexemes(gaps, toks, k + 1) + rest).len(),
{
    let g = gaps[k];
    let t = toks[k];
    let more = lexemes(gaps, toks, k + 1) + rest;
    assert(lexemes(gaps, toks, k) + rest =~= g + t + more);
    lemma_at_concat(s, i, g + t, more);
    lemma_at_concat(s, i, g, t);
    lemma_gap(s, i, g, 0, false);
    lemma_at_char(s, i + g.len(), t, 0);
}

/// What follows a token is a gap and the next token, so it starts with a blank, a `#` or the
/// next token's first character.
proof fn lemma_next(s: Seq<char>, j: int, gaps: Seq<Seq<char>>, toks: Seq<Seq<char>>, k: int, rest: Seq<char>)
    requires
        0 <= k < toks.len(),
        k < gaps.len(),
        at(s, j, lexemes(gaps, toks, k) + rest),
        is_gap(gaps[k]),
        toks[k].len() > 0,
    ensures
        j < s.len(),
        is_space(s[j]) || s[j] == '#' || s[j] == toks[k][0],
{
    let g = gaps[k];
    let t = toks[k];
    let more = lexemes(gaps, toks, k + 1) + rest;
    assert(lexemes(gaps, toks, k) + rest =~= g + t + more);
    lemma_at_concat(s, j, g + t, more);
    lemma_at_concat(s, j, g, t);
    if g.len() > 0 {
        lemma_gap_first(g);
        lemma_at_char(s, j, g, 0);
    } else {
        lemma_at_char(s, j + g.len(), t, 0);
    }
}

/// A token of one character.
proof fn lemma_punct(s: Seq<char>, i: int, gaps: Seq<Seq<char>>, toks: Seq<Seq<char>>, k: int, rest: Seq<char>, c: char)
    requires
        0 <= k < toks.len(),
        k < gaps.len(),
        at(s, i, lexemes(gaps, toks, k) + rest),
        is_gap(gaps[k]),
        toks[k] == seq![c],
        !is_space(c),
        c != '#',
    ensures
        space(s, i) == i + gaps[k].len(),
        s[i + gaps[k].len()] == c,
        eat(s, i, c) == (true, i + gaps[k].len() + 1),
        expect(s, i, c) == Ok::<int, crate::glossary::Failure>(i + gaps[k].len() + 1),
        forall|d: char| d != c ==> #[trigger] eat(s, i, d) == (false, i + gaps[k].len()),
        at(s, i + gaps[k].len() + 1, lexemes(gaps, toks, k + 1) + rest),
        (lexemes(gaps, toks, k) + rest).len() == gaps[k].len() + toks[k].len() + (lexemes(gaps, toks, k + 1) + rest).len(),
{
    lemma_head(s, i, gaps, toks, k, rest);
}

/// A token that is a name, followed by a token that cannot continue it.
proof fn lemma_name(s: Seq<char>, i: int, gaps: Seq<Seq<char>>, toks: Seq<Seq<char>>, k: int, rest: Seq<char>)
    requires
        0 <= k,
        k + 1 < toks.len(),
        k + 1 < gaps.len(),
        at(s, i, lexemes(gaps, toks, k) + rest),
        is_gap(gaps[k]),
        is_gap(gaps[k + 1]),
        toks[k].len() > 0,
        forall|m: int| 0 <= m < toks[k].len() ==> is_ident_char(#[trigger] toks[k][m]),
        toks[k + 1].len() > 0,
        !is_ident_char(toks[k + 1][0]),
    ensures
        space(s, i) == i + gaps[k].len(),
        s[i + gaps[k].len()] == toks[k][0],
        ident(s, i) == Ok::<(Seq<char>, int), crate::glossary::Failure>((toks[k], i + gaps[k].len() + toks[k].len())),
        at(s, i + gaps[k].len() + toks[k].len(), lexemes(gaps, toks, k + 1) + rest),
        (lexemes(gaps, toks, k) + rest).len() == gaps[k].len() + toks[k].len() + (lexemes(gaps, toks, k + 1) + rest).len(),
{
    let t = toks[k];
    assert(is_ident_char(t[0]));
    lemma_head(s, i, gaps, toks, k, rest);
    let j = i + gaps[k].len();
    lemma_next(s, j + t.len(), gaps, toks, k + 1, rest);
    lemma_ident_end(s, j, t);
    lemma_at_subrange(s, j, t);
}

/// A token that is a quoted word.
proof fn lemma_quoted(s: Seq<char>, i: int, gaps: Seq<Seq<char>>, toks: Seq<Seq<char>>, k: int, rest: Seq<char>, w: Seq<char>)
    requires
        0 <= k < toks.len(),
        k < gaps.len(),
        at(s, i, lexemes(gaps, toks, k) + rest),
        is_gap(gaps[k]),
        toks[k] == quoted(w),
        plain(w),
    ensures
        space(s, i) == i + gaps[k].len(),
        s[i + gaps[k].len()] == '"',
        string(s, i) == Ok::<(Seq<char>, int), crate::glossary::Failure>((w, i + gaps[k].len() + w.len() + 2)),
        at(s, i + gaps[k].len() + w.len() + 2, lexemes(gaps, toks, k + 1) + rest),
        (lexemes(gaps, toks, k) + rest).len() == gaps[k].len() + toks[k].len() + (lexemes(gaps, toks, k + 1) + rest).len(),
{
    reveal_strlit("\"");
    lemma_head(s, i, gaps, toks, k, rest);
    let j = i + gaps[k].len();
    let q = "\""@;
    assert(quoted(w) == q + w + q);
    lemma_at_concat(s, j, q + w, q);
    lemma_at_concat(s, j, q, w);
    lemma_at_char(s, j, q, 0);
    lemma_at_char(s, j + 1 + w.len(), q, 0);
    lemma_string_end(s, j + 1, w);
    lemma_at_subrange(s, j + 1, w);
    assert(expect(s, i, '"') == Ok::<int, crate::glossary::Failure>(j + 1));
}


proof fn lemma_literals()
    ensures
        "{"@ == seq!['{'],
        "}"@ == seq!['}'],
        "="@ == seq!['='],
        ";"@ == seq![';'],
        "["@ == seq!['['],
        "]"@ == seq![']'],
        "name"@ == seq!['n', 'a', 'm', 'e'],
        "desc"@ == seq!['d', 'e', 's', 'c'],
        "names"@ == seq!['n', 'a', 'm', 'e', 's'],
        "verbs"@ == seq!['v', 'e', 'r', 'b', 's'],
{
    reveal_strlit("{");
    reveal_strlit("}");
    reveal_strlit("=");
    reveal_strlit(";");
    reveal_strlit("[");
    reveal_strlit("]");
    reveal_strlit("name");
    reveal_strlit("desc");
    reveal_strlit("names");
    reveal_strlit("verbs");
    assert("{"@ =~= seq!['{']);
    assert("}"@ =~= seq!['}']);
    assert("="@ =~= seq!['=']);
    assert(";"@ =~= seq![';']);
    assert("["@ =~= seq!['[']);
    assert("]"@ =~= seq![']']);
    assert("name"@ =~= seq!['n', 'a', 'm', 'e']);
    assert("desc"@ =~= seq!['d', 'e', 's', 'c']);
    assert("names"@ =~= seq!['n', 'a', 'm', 'e', 's']);
    assert("verbs"@ =~= seq!['v', 'e', 'r', 'b', 's']);
}

/// Where the parser stands in the fields of an entry for `w` with the definition `d`: before the
/// name, after it, or after the definition too.
spec fn fields_state(
    toks: Seq<Seq<char>>,
    k: int,
    name: Option<Seq<char>>,
    desc: Option<Seq<char>>,
    w: Seq<char>,
    d: Option<Seq<char>>,
) -> bool {
    let placed = (k == 1 && name is None && desc is None) || (k == 5 && name == Some(lowercase(w)) && desc is None)
        || (k == 9 && name == Some(lowercase(w)) && desc == d && d is Some);
    let shape = match d {
        None => toks == seq!["{"@, "name"@, "="@, quoted(w), ";"@, "}"@],
        Some(x) => toks == seq!["{"@, "name"@, "="@, quoted(w), ";"@, "desc"@, "="@, quoted(x), ";"@, "}"@],
    };
    placed && shape
}

/// The fields of an entry after its `{`, from the `k`th token on: `name = "..."; ` or
/// `desc = "...";` pairs, then `}`.
#[verifier::spinoff_prover]
#[verifier::rlimit(40)]
proof fn lemma_fields(
    s: Seq<char>,
    i: int,
    gaps: Seq<Seq<char>>,
    toks: Seq<Seq<char>>,
    k: int,
    rest: Seq<char>,
    name: Option<Seq<char>>,
    desc: Option<Seq<char>>,
    w: Seq<char>,
    d: Option<Seq<char>>,
) -> (f: int)
    requires
        fields_state(toks, k, name, desc, w, d),
        gaps.len() == toks.len(),
        all_gaps(gaps),
        plain(w),
        (d matches Some(x) ==> plain(x)),
        at(s, i, lexemes(gaps, toks, k) + rest),
    ensures
        i < f,
        at(s, f, rest),
        entry_fields(s, i, name, desc) == Ok::<(EntrySpec, int), crate::glossary::Failure>(((lowercase(w), d), f)),
        f + rest.len() == i + (lexemes(gaps, toks, k) + rest).len(),
    decreases toks.len() - k,
{
    lemma_literals();
    let n = toks.len() as int;
    if k == n - 1 {
        lemma_punct(s, i, gaps, toks, k, rest, '}');
        let f = i + gaps[k].len() + 1;
        assert(lexemes(gaps, toks, k + 1) + rest =~= rest);
        f
    } else {
        let key = toks[k];
        assert(forall|m: int| 0 <= m < key.len() ==> is_ident_char(#[trigger] key[m]));
        lemma_name(s, i, gaps, toks, k, rest);
        let j = i + gaps[k].len();
        assert(eat(s, i, '}') == (false, j));
        assert(space(s, j) == j);
        assert(ident(s, j) == ident(s, i));
        let k1 = j + key.len();
        lemma_punct(s, k1, gaps, toks, k + 1, rest, '=');
        let k2 = k1 + gaps[k + 1].len() + 1;
        let v = if k == 1 { w } else { d.unwrap() };
        lemma_quoted(s, k2, gaps, toks, k + 2, rest, v);
        let k3 = k2 + gaps[k + 2].len() + v.len() + 2;
        lemma_punct(s, k3, gaps, toks, k + 3, rest, ';');
        let k4 = k3 + gaps[k + 3].len() + 1;
        reveal_strlit("\"");
        assert(toks[k + 2].len() == v.len() + 2);
        if k == 1 {
            lemma_fields(s, k4, gaps, toks, k + 4, rest, Some(lowercase(w)), desc, w, d)
        } else {
            assert(key != "name"@);
            lemma_fields(s, k4, gaps, toks, k + 4, rest, name, Some(v), w, d)
        }
    }
}


/// One entry, in either spelling, reads as its name lowercased with its definition.
#[verifier::spinoff_prover]
proof fn lemma_spaced_entry(s: Seq<char>, i: int, e: SpacedEntry, rest: Seq<char>, x: int) -> (f: int)
    requires
        at(s, i, spaced_entry(e) + rest),
        spaced_entry_ok(e),
        space(s, x) == space(s, i),
    ensures
        space(s, i) == i + e.1[0].len(),
        s[i + e.1[0].len()] == '{' || s[i + e.1[0].len()] == '"',
        i < f,
        at(s, f, rest),
        f + rest.len() == i + (spaced_entry(e) + rest).len(),
        entry(s, x) == Ok::<(EntrySpec, int), crate::glossary::Failure>(((lowercase(e.0.0), e.0.1), f)),
{
    lemma_literals();
    reveal_strlit("\"");
    let w = e.0.0;
    let toks = entry_tokens(e.0);
    let gaps = e.1;
    if e.0.1 is None && e.0.2 {
        lemma_quoted(s, i, gaps, toks, 0, rest, w);
        let p = i + gaps[0].len();
        assert(lexemes(gaps, toks, 1) + rest =~= rest);
        assert(space(s, p) == p);
        assert(eat(s, x, '{') == (false, p));
        assert(string(s, p) == string(s, i));
        p + w.len() + 2
    } else {
        lemma_punct(s, i, gaps, toks, 0, rest, '{');
        let a = i + gaps[0].len() + 1;
        assert(eat(s, x, '{') == (true, a));
        lemma_fields(s, a, gaps, toks, 1, rest, None, None, w, e.0.1)
    }
}

/// The entries of a list, read in order.
proof fn lemma_spaced_entries(s: Seq<char>, i: int, es: Seq<SpacedEntry>, tail: Seq<char>, acc: Seq<EntrySpec>) -> (t: int)
    requires
        at(s, i, spaced_entries(es) + tail),
        spaced_entries_ok(es),
    ensures
        i <= t,
        at(s, t, tail),
        t + tail.len() == i + (spaced_entries(es) + tail).len(),
        es.len() > 0 ==> list_items(s, i, acc) == list_items(s, t, acc + read_back(written_of(es))),
    decreases es.len(),
{
    if es.len() == 0 {
        assert(spaced_entries(es) + tail =~= tail);
        i
    } else {
        let rest = es.drop_first();
        let more = spaced_entries(rest) + tail;
        assert(spaced_entries(es) + tail =~= spaced_entry(es[0]) + more);
        assert(spaced_entry_ok(es[0]));
        let j = space(s, i);
        lemma_spaced_entry(s, i, es[0], more, i);
        assert(space(s, j) == j);
        let f = lemma_spaced_entry(s, i, es[0], more, j);
        let d0 = (lowercase(es[0].0.0), es[0].0.1);
        assert(eat(s, i, ']') == (false, j));
        assert(list_items(s, i, acc) == list_items(s, f, acc.push(d0)));
        assert(spaced_entries_ok(rest)) by {
            assert forall|m: int| 0 <= m < rest.len() implies spaced_entry_ok(#[trigger] rest[m]) by {
                assert(rest[m] == es[m + 1]);
            }
        }
        let t = lemma_spaced_entries(s, f, rest, tail, acc.push(d0));
        assert(acc.push(d0) + read_back(written_of(rest)) =~= acc + read_back(written_of(es)));
        if rest.len() == 0 {
            assert(acc.push(d0) + read_back(written_of(rest)) =~= acc.push(d0));
        }
        t
    }
}

/// A section `list = [ ... ];` adds its entries to the list it names.
#[verifier::spinoff_prover]
proof fn lemma_spaced_section(
    s: Seq<char>,
    i: int,
    list: Seq<char>,
    g: Seq<Seq<char>>,
    es: Seq<SpacedEntry>,
    tail: Seq<char>,
    gl: (Terms, Terms),
) -> (f: int)
    requires
        at(s, i, spaced_section(list, g, es) + tail),
        list == "names"@ || list == "verbs"@,
        g.len() == 5,
        all_gaps(g),
        spaced_entries_ok(es),
    ensures
        i < f,
        at(s, f, tail),
        f + tail.len() == i + (spaced_section(list, g, es) + tail).len(),
        glossary_items(s, i, gl) == glossary_items(s, f, read_written_section(list, written_of(es), gl)),
{
    lemma_literals();
    let opening = opening_tokens(list);
    let closing = closing_tokens();
    let g2 = g.subrange(3, 5);
    let close = lexemes(g2, closing, 0) + tail;
    let mid = spaced_entries(es) + close;
    assert(spaced_section(list, g, es) + tail =~= lexemes(g, opening, 0) + mid);
    assert(forall|m: int| 0 <= m < list.len() ==> is_ident_char(#[trigger] list[m]));
    lemma_name(s, i, g, opening, 0, mid);
    let j = i + g[0].len();
    assert(eat(s, i, '}') == (false, j));
    assert(space(s, j) == j);
    assert(ident(s, j) == ident(s, i));
    let k1 = j + 5;
    lemma_punct(s, k1, g, opening, 1, mid, '=');
    let k2 = k1 + g[1].len() + 1;
    lemma_punct(s, k2, g, opening, 2, mid, '[');
    let k3 = k2 + g[2].len() + 1;
    assert(lexemes(g, opening, 3) + mid =~= mid);
    let t = lemma_spaced_entries(s, k3, es, close, Seq::<EntrySpec>::empty());
    assert(all_gaps(g2)) by {
        assert forall|m: int| 0 <= m < g2.len() implies is_gap(#[trigger] g2[m]) by {
            assert(g2[m] == g[m + 3]);
        }
    }
    lemma_punct(s, t, g2, closing, 0, tail, ']');
    let t1 = t + g2[0].len() + 1;
    assert(Seq::<EntrySpec>::empty() + read_back(written_of(es)) =~= read_back(written_of(es)));
    assert(list_items(s, t, read_back(written_of(es))) == Ok::<(Seq<EntrySpec>, int), crate::glossary::Failure>(
        (read_back(written_of(es)), t1),
    ));
    if es.len() == 0 {
        assert(read_back(written_of(es)) =~= Seq::<EntrySpec>::empty());
    }
    lemma_punct(s, t1, g2, closing, 1, tail, ';');
    let k4 = t1 + g2[1].len() + 1;
    assert(lexemes(g2, closing, 2) + tail =~= tail);
    assert(("names"@)[0] != ("verbs"@)[0]);
    k4
}


/// A glossary file is well formed: a gap before each brace, a tail after the closing one, a gap
/// before each token of each section and of each entry, and each name and definition one a Nix
/// string holds as it is (a definition may hold `#`, `;`, brackets, braces and line breaks).
pub open spec fn spacing_ok(
    g: Seq<Seq<char>>,
    ng: Seq<Seq<char>>,
    ns: Seq<SpacedEntry>,
    vg: Seq<Seq<char>>,
    vs: Seq<SpacedEntry>,
) -> bool {
    &&& g.len() == 3
    &&& is_gap(g[0])
    &&& is_gap(g[1])
    &&& is_tail(g[2])
    &&& ng.len() == 5
    &&& all_gaps(ng)
    &&& vg.len() == 5
    &&& all_gaps(vg)
    &&& spaced_entries_ok(ns)
    &&& spaced_entries_ok(vs)
}

/// Spacing is not part of the grammar: with any blanks and comments before, between and after
/// its tokens, a glossary reads back as what was written, each name lowercased with its
/// definition, a later entry for a name replacing an earlier one, and the two spellings of an
/// entry without a definition reading the same.
#[verifier::spinoff_prover]
#[verifier::rlimit(40)]
pub proof fn any_spacing_reads_back(
    g: Seq<Seq<char>>,
    ng: Seq<Seq<char>>,
    ns: Seq<SpacedEntry>,
    vg: Seq<Seq<char>>,
    vs: Seq<SpacedEntry>,
)
    requires
        spacing_ok(g, ng, ns, vg, vs),
    ensures
        parse_glossary(spaced_glossary(g, ng, ns, vg, vs)) == Ok::<(Terms, Terms), crate::glossary::Failure>(
            (extend(Terms::empty(), read_back(written_of(ns))), extend(Terms::empty(), read_back(written_of(vs)))),
        ),
{
    lemma_literals();
    let s = spaced_glossary(g, ng, ns, vg, vs);
    let sn = spaced_section("names"@, ng, ns);
    let sv = spaced_section("verbs"@, vg, vs);
    let shut = seq!["}"@];
    let gs = g.subrange(1, 2);
    let end = lexemes(gs, shut, 0) + g[2];
    let after = sn + (sv + end);
    let open = seq!["{"@];
    assert(lexemes(g, open, 1) =~= Seq::<char>::empty());
    assert(lexemes(g, open, 0) =~= g[0] + "{"@);
    assert(gs[0] == g[1]);
    assert(lexemes(gs, shut, 1) =~= Seq::<char>::empty());
    assert(lexemes(gs, shut, 0) =~= g[1] + "}"@);
    assert(s =~= lexemes(g, open, 0) + after);
    lemma_at_self(s);
    lemma_punct(s, 0, g, seq!["{"@], 0, after, '{');
    let j = (g[0].len() + 1) as int;
    assert(lexemes(g, seq!["{"@], 1) + after =~= after);
    let g0 = (Terms::empty(), Terms::empty());
    let f1 = lemma_spaced_section(s, j, "names"@, ng, ns, sv + end, g0);
    let g1 = read_written_section("names"@, written_of(ns), g0);
    let f2 = lemma_spaced_section(s, f1, "verbs"@, vg, vs, end, g1);
    let g2 = read_written_section("verbs"@, written_of(vs), g1);
    assert(g2 == (extend(Terms::empty(), read_back(written_of(ns))), extend(Terms::empty(), read_back(written_of(vs))))) by {
        assert(("names"@)[0] != ("verbs"@)[0]);
    }
    assert(all_gaps(gs)) by {
        assert forall|m: int| 0 <= m < gs.len() implies is_gap(#[trigger] gs[m]) by {
            assert(gs[m] == g[m + 1]);
        }
    }
    lemma_punct(s, f2, gs, shut, 0, g[2], '}');
    let c = f2 + gs[0].len() + 1;
    assert(lexemes(gs, shut, 1) + g[2] =~= g[2]);
    assert(glossary_items(s, f2, g2) == Ok::<((Terms, Terms), int), crate::glossary::Failure>((g2, c)));
    lemma_tail(s, c, g[2], 0, false);
}

/// Whatever a glossary holds reads back as itself from a file with any spacing: a glossary whose
/// names are lowercase and whose names and definitions a Nix string holds as they are, written
/// out entry by entry in either spelling with any blanks and comments between the tokens.
pub proof fn any_spacing_reads_back_as_itself(
    t: (Terms, Terms),
    g: Seq<Seq<char>>,
    ng: Seq<Seq<char>>,
    ns: Seq<SpacedEntry>,
    vg: Seq<Seq<char>>,
    vs: Seq<SpacedEntry>,
)
    requires
        spacing_ok(g, ng, ns, vg, vs),
        writes_out(t.0, written_of(ns)),
        writes_out(t.1, written_of(vs)),
    ensures
        parse_glossary(spaced_glossary(g, ng, ns, vg, vs)) == Ok::<(Terms, Terms), crate::glossary::Failure>(t),
{
    any_spacing_reads_back(g, ng, ns, vg, vs);
    lemma_reads_back_as(t.0, written_of(ns));
    lemma_reads_back_as(t.1, written_of(vs));
}


// ---------------------------------------------------------------------------------------------
// What the parser accepts, written out again, reads back the same.
// ---------------------------------------------------------------------------------------------

pub open spec fn plain_desc(d: Option<Seq<char>>) -> bool {
    d matches Some(x) ==> plain(x)
}

/// Every definition among the terms is one a Nix string holds as it is.
pub open spec fn plain_terms(m: Terms) -> bool {
    forall|k: Seq<char>| #[trigger] m.contains_key(k) ==> plain_desc(m[k])
}

proof fn lemma_string_end_plain(s: Seq<char>, k: int)
    requires
        string_end(s, k) is Ok,
    ensures
        0 <= k <= string_end(s, k)->Ok_0 < s.len(),
        forall|m: int| k <= m < string_end(s, k)->Ok_0 ==> {
            &&& #[trigger] s[m] != '"'
            &&& s[m] != '\\'
            &&& (s[m] == '$' ==> s[m + 1] != '{')
        },
    decreases s.len() - k,
{
    if 0 <= k < s.len() && s[k] != '"' {
        lemma_string_end_plain(s, k + 1);
    }
}

/// `n` is a name as the parser reads it from `s`: the lowercasing of a word a Nix string holds as
/// it is, taken from `s`, so ASCII where `s` is.
pub open spec fn read_name(s: Seq<char>, n: Seq<char>) -> bool {
    exists|v: Seq<char>| #[trigger] lowercase(v) == n && plain(v) && (is_ascii_text(s) ==> is_ascii_text(v))
}

/// Every term is read from `s`: its name as `read_name` says, its definition plain.
pub open spec fn terms_read(s: Seq<char>, m: Terms) -> bool {
    forall|k: Seq<char>| #[trigger] m.contains_key(k) ==> read_name(s, k) && plain_desc(m[k])
}

pub open spec fn entries_read(s: Seq<char>, es: Seq<EntrySpec>) -> bool {
    forall|j: int| 0 <= j < es.len() ==> read_name(s, (#[trigger] es[j]).0) && plain_desc(es[j].1)
}

proof fn lemma_string_plain(s: Seq<char>, i: int)
    requires
        string(s, i) is Ok,
    ensures
        plain(string(s, i)->Ok_0.0),
        is_ascii_text(s) ==> is_ascii_text(string(s, i)->Ok_0.0),
        read_name(s, lowercase(string(s, i)->Ok_0.0)),
{
    let j = expect(s, i, '"')->Ok_0;
    lemma_string_end_plain(s, j);
    let q = string_end(s, j)->Ok_0;
    let v = s.subrange(j, q);
    assert forall|m: int| 0 <= m < v.len() implies {
        &&& #[trigger] v[m] != '"'
        &&& v[m] != '\\'
        &&& (v[m] == '$' && m + 1 < v.len() ==> v[m + 1] != '{')
    } by {
        assert(v[m] == s[j + m]);
        if m + 1 < v.len() {
            assert(v[m + 1] == s[j + m + 1]);
        }
    }
    if is_ascii_text(s) {
        assert forall|m: int| 0 <= m < v.len() implies (#[trigger] v[m] as u32) < 128 by {
            assert(v[m] == s[j + m]);
        }
    }
    assert(lowercase(v) == lowercase(v));
}

proof fn lemma_fields_plain(s: Seq<char>, i: int, name: Option<Seq<char>>, desc: Option<Seq<char>>)
    requires
        plain_desc(desc),
        name matches Some(n) ==> read_name(s, n),
        entry_fields(s, i, name, desc) is Ok,
    ensures
        read_name(s, entry_fields(s, i, name, desc)->Ok_0.0.0),
        plain_desc(entry_fields(s, i, name, desc)->Ok_0.0.1),
    decreases s.len() - i,
{
    let (closed, j) = eat(s, i, '}');
    if !closed {
        let (key, k1) = ident(s, j)->Ok_0;
        let k2 = expect(s, k1, '=')->Ok_0;
        let (value, k3) = string(s, k2)->Ok_0;
        let k4 = expect(s, k3, ';')->Ok_0;
        lemma_string_plain(s, k2);
        if key == "name"@ {
            lemma_fields_plain(s, k4, Some(lowercase(value)), desc);
        } else {
            lemma_fields_plain(s, k4, name, Some(value));
        }
    }
}

proof fn lemma_list_items_plain(s: Seq<char>, i: int, acc: Seq<EntrySpec>)
    requires
        entries_read(s, acc),
        list_items(s, i, acc) is Ok,
    ensures
        entries_read(s, list_items(s, i, acc)->Ok_0.0),
    decreases s.len() - i,
{
    let (closed, j) = eat(s, i, ']');
    if !closed {
        let (open, j2) = eat(s, j, '{');
        if open {
            lemma_fields_plain(s, j2, None, None);
        } else {
            lemma_string_plain(s, j2);
        }
        let (e, k) = entry(s, j)->Ok_0;
        let next = acc.push(e);
        assert forall|m: int| 0 <= m < next.len() implies read_name(s, (#[trigger] next[m]).0) && plain_desc(next[m].1) by {
            if m < acc.len() {
                assert(next[m] == acc[m]);
            }
        }
        lemma_list_items_plain(s, k, next);
    }
}

proof fn lemma_extend_plain(s: Seq<char>, m: Terms, es: Seq<EntrySpec>)
    requires
        terms_read(s, m),
        entries_read(s, es),
    ensures
        terms_read(s, extend(m, es)),
    decreases es.len(),
{
    if es.len() > 0 {
        let prev = es.drop_last();
        assert forall|j: int| 0 <= j < prev.len() implies read_name(s, (#[trigger] prev[j]).0) && plain_desc(prev[j].1) by {
            assert(prev[j] == es[j]);
        }
        lemma_extend_plain(s, m, prev);
        assert(read_name(s, es[es.len() - 1].0) && plain_desc(es[es.len() - 1].1));
    }
}

proof fn lemma_glossary_items_plain(s: Seq<char>, i: int, g: (Terms, Terms))
    requires
        terms_read(s, g.0),
        terms_read(s, g.1),
        glossary_items(s, i, g) is Ok,
    ensures
        terms_read(s, glossary_items(s, i, g)->Ok_0.0.0),
        terms_read(s, glossary_items(s, i, g)->Ok_0.0.1),
    decreases s.len() - i,
{
    let (closed, j) = eat(s, i, '}');
    if !closed {
        let (key, k1) = ident(s, j)->Ok_0;
        let k2 = expect(s, k1, '=')->Ok_0;
        let j3 = expect(s, k2, '[')->Ok_0;
        lemma_list_items_plain(s, j3, Seq::empty());
        let (es, k3) = list(s, k2)->Ok_0;
        let k4 = expect(s, k3, ';')->Ok_0;
        lemma_extend_plain(s, g.0, es);
        lemma_extend_plain(s, g.1, es);
        if key == "names"@ {
            lemma_glossary_items_plain(s, k4, (extend(g.0, es), g.1));
        } else {
            lemma_glossary_items_plain(s, k4, (g.0, extend(g.1, es)));
        }
    }
}

/// Every name the parser accepts is read as `read_name` says, and every definition is one a Nix
/// string holds as it is.
proof fn lemma_parse_plain(s: Seq<char>)
    requires
        parse_glossary(s) is Ok,
    ensures
        terms_read(s, parse_glossary(s)->Ok_0.0),
        terms_read(s, parse_glossary(s)->Ok_0.1),
        plain_terms(parse_glossary(s)->Ok_0.0),
        plain_terms(parse_glossary(s)->Ok_0.1),
{
    let j = expect(s, 0, '{')->Ok_0;
    let g0 = (Terms::empty(), Terms::empty());
    lemma_glossary_items_plain(s, j, g0);
}

/// Each gap of a glossary file is well placed, whatever the entries say.
pub open spec fn gaps_placed(
    g: Seq<Seq<char>>,
    ng: Seq<Seq<char>>,
    ns: Seq<SpacedEntry>,
    vg: Seq<Seq<char>>,
    vs: Seq<SpacedEntry>,
) -> bool {
    &&& g.len() == 3
    &&& is_gap(g[0])
    &&& is_gap(g[1])
    &&& is_tail(g[2])
    &&& ng.len() == 5
    &&& all_gaps(ng)
    &&& vg.len() == 5
    &&& all_gaps(vg)
    &&& forall|j: int| 0 <= j < ns.len() ==> (#[trigger] ns[j]).1.len() == entry_tokens(ns[j].0).len() && all_gaps(ns[j].1)
    &&& forall|j: int| 0 <= j < vs.len() ==> (#[trigger] vs[j]).1.len() == entry_tokens(vs[j].0).len() && all_gaps(vs[j].1)
}

pub open spec fn plain_keys(m: Terms) -> bool {
    forall|k: Seq<char>| #[trigger] m.contains_key(k) ==> plain(k)
}

proof fn lemma_entries_plain(m: Terms, es: Seq<SpacedEntry>)
    requires
        writes_out(m, written_of(es)),
        plain_terms(m),
        plain_keys(m),
        forall|j: int| 0 <= j < es.len() ==> (#[trigger] es[j]).1.len() == entry_tokens(es[j].0).len() && all_gaps(es[j].1),
    ensures
        spaced_entries_ok(es),
{
    let w = written_of(es);
    assert forall|j: int| 0 <= j < es.len() implies spaced_entry_ok(#[trigger] es[j]) by {
        assert(w[j] == es[j].0);
        assert(m.contains_key(w[j].0));
    }
}

/// A file the parser accepts, written out again entry by entry in any order, either spelling and
/// any spacing, reads back as the same terms. It holds where each name the file declares is one
/// that lowercasing leaves as it is and that a Nix string holds as it is: the names are read
/// lowercased, and writing them out again must give them back.
pub proof fn an_accepted_glossary_reads_back_the_same(
    s: Seq<char>,
    t: (Terms, Terms),
    g: Seq<Seq<char>>,
    ng: Seq<Seq<char>>,
    ns: Seq<SpacedEntry>,
    vg: Seq<Seq<char>>,
    vs: Seq<SpacedEntry>,
)
    requires
        parse_glossary(s) == Ok::<(Terms, Terms), crate::glossary::Failure>(t),
        plain_keys(t.0),
        plain_keys(t.1),
        writes_out(t.0, written_of(ns)),
        writes_out(t.1, written_of(vs)),
        gaps_placed(g, ng, ns, vg, vs),
    ensures
        parse_glossary(spaced_glossary(g, ng, ns, vg, vs)) == Ok::<(Terms, Terms), crate::glossary::Failure>(t),
{
    lemma_parse_plain(s);
    lemma_entries_plain(t.0, ns);
    lemma_entries_plain(t.1, vs);
    any_spacing_reads_back_as_itself(t, g, ng, ns, vg, vs);
}


/// Lowercasing ASCII text keeps quotes, backslashes and interpolations out of it.
proof fn lemma_plain_lowercase(v: Seq<char>)
    requires
        plain(v),
        is_ascii_text(v),
    ensures
        plain(lowercase(v)),
        lowercase(lowercase(v)) == lowercase(v),
{
    lemma_ascii_lowercase(v);
    let l = lowercase(v);
    assert forall|m: int| 0 <= m < l.len() implies {
        &&& #[trigger] l[m] != '"'
        &&& l[m] != '\\'
        &&& (l[m] == '$' && m + 1 < l.len() ==> l[m + 1] != '{')
    } by {
        assert(l[m] == ascii_lower_char(v[m]));
        if m + 1 < l.len() {
            assert(l[m + 1] == ascii_lower_char(v[m + 1]));
        }
    }
}

/// `es` lists the terms `m`: each term once, with its definition.
pub open spec fn enumerates(m: Terms, es: Seq<Written>) -> bool {
    &&& forall|j: int| 0 <= j < es.len() ==> m.contains_key((#[trigger] es[j]).0) && m[es[j].0] == es[j].1
    &&& forall|a: int, b: int| 0 <= a < b < es.len() ==> (#[trigger] es[a]).0 != (#[trigger] es[b]).0
    &&& forall|k: Seq<char>| #[trigger] m.contains_key(k) ==> exists|j: int| 0 <= j < es.len() && (#[trigger] es[j]).0 == k
}

proof fn lemma_ascii_terms(s: Seq<char>, m: Terms, es: Seq<Written>)
    requires
        is_ascii_text(s),
        terms_read(s, m),
        enumerates(m, es),
    ensures
        plain_keys(m),
        writes_out(m, es),
{
    assert forall|k: Seq<char>| #[trigger] m.contains_key(k) implies plain(k) && lowercase(k) == k by {
        let v = choose|v: Seq<char>| #[trigger] lowercase(v) == k && plain(v) && (is_ascii_text(s) ==> is_ascii_text(v));
        lemma_plain_lowercase(v);
    }
    assert forall|j: int| 0 <= j < es.len() implies lowercase((#[trigger] es[j]).0) == es[j].0 by {
        assert(m.contains_key(es[j].0));
    }
}

/// A file in ASCII that the parser accepts, written out again entry by entry in any order,
/// either spelling and any spacing, reads back as the same terms.
pub proof fn an_accepted_ascii_glossary_reads_back_the_same(
    s: Seq<char>,
    t: (Terms, Terms),
    g: Seq<Seq<char>>,
    ng: Seq<Seq<char>>,
    ns: Seq<SpacedEntry>,
    vg: Seq<Seq<char>>,
    vs: Seq<SpacedEntry>,
)
    requires
        parse_glossary(s) == Ok::<(Terms, Terms), crate::glossary::Failure>(t),
        is_ascii_text(s),
        enumerates(t.0, written_of(ns)),
        enumerates(t.1, written_of(vs)),
        gaps_placed(g, ng, ns, vg, vs),
    ensures
        parse_glossary(spaced_glossary(g, ng, ns, vg, vs)) == Ok::<(Terms, Terms), crate::glossary::Failure>(t),
{
    lemma_parse_plain(s);
    lemma_ascii_terms(s, t.0, written_of(ns));
    lemma_ascii_terms(s, t.1, written_of(vs));
    an_accepted_glossary_reads_back_the_same(s, t, g, ng, ns, vg, vs);
}

} // verus!
