//! What the glossary parser reads back from the text this crate writes: a skeleton is a glossary
//! that declares each word it lists, lowercased, with an empty definition; and a glossary written
//! out entry by entry reads back as itself.
use vstd::prelude::*;
use crate::glossary::{
    skip, space, eat, expect, ident_end, ident, string_end, string, entry_fields, entry, list_items,
    glossary_items, parse_glossary, extend, is_space, is_ident_char, Terms, EntrySpec,
};
use crate::skeleton::{Ranked, entry_line, entry_lines, spaces, padding, section, skeleton_text, header, widest};
use crate::text::{lowercase, decimal, digit};

verus! {

/// `p` stands in `s` from `i` on.
pub open spec fn at(s: Seq<char>, i: int, p: Seq<char>) -> bool {
    &&& 0 <= i
    &&& i + p.len() <= s.len()
    &&& holds(s, i, p)
}

/// The characters of `s` from `i` on are those of `p`.
#[verifier::opaque]
pub open spec fn holds(s: Seq<char>, i: int, p: Seq<char>) -> bool {
    forall|k: int| 0 <= k < p.len() ==> s[i + k] == #[trigger] p[k]
}

/// A word that a Nix string holds as it is: no quote, no backslash, no interpolation.
pub open spec fn plain(w: Seq<char>) -> bool {
    forall|k: int|
        0 <= k < w.len() ==> {
            &&& #[trigger] w[k] != '"'
            &&& w[k] != '\\'
            &&& (w[k] == '$' && k + 1 < w.len() ==> w[k + 1] != '{')
        }
}

/// What a glossary reads from the entries of `r`.
pub open spec fn declared(r: Seq<Ranked>) -> Seq<EntrySpec> {
    r.map_values(|x: Ranked| (lowercase(x.0), Some(Seq::<char>::empty())))
}

pub(crate) proof fn lemma_at_concat(s: Seq<char>, i: int, a: Seq<char>, b: Seq<char>)
    requires
        at(s, i, a + b),
    ensures
        at(s, i, a),
        at(s, i + a.len(), b),
{
    reveal(holds);
    assert forall|k: int| 0 <= k < a.len() implies s[i + k] == #[trigger] a[k] by {
        assert((a + b)[k] == a[k]);
    }
    assert forall|k: int| 0 <= k < b.len() implies s[i + a.len() + k] == #[trigger] b[k] by {
        assert((a + b)[a.len() + k] == b[k]);
    }
}

pub(crate) proof fn lemma_at_subrange(s: Seq<char>, i: int, p: Seq<char>)
    requires
        at(s, i, p),
    ensures
        s.subrange(i, i + p.len()) == p,
{
    reveal(holds);
    assert(s.subrange(i, i + p.len()) =~= p);
}

pub(crate) proof fn lemma_at_char(s: Seq<char>, i: int, p: Seq<char>, k: int)
    requires
        at(s, i, p),
        0 <= k < p.len(),
    ensures
        s[i + k] == p[k],
{
    reveal(holds);
}

/// Blanks are skipped.
proof fn lemma_skip_blanks(s: Seq<char>, i: int, j: int)
    requires
        0 <= i <= j <= s.len(),
        forall|k: int| i <= k < j ==> #[trigger] s[k] == ' ',
    ensures
        skip(s, i, false) == skip(s, j, false),
    decreases j - i,
{
    if i < j {
        assert(s[i] == ' ');
        lemma_skip_blanks(s, i + 1, j);
    }
}

proof fn lemma_skip_comment_rest(s: Seq<char>, k: int, j: int)
    requires
        0 <= k <= j < s.len(),
        s[j] == '\n',
        forall|m: int| k <= m < j ==> #[trigger] s[m] != '\n',
    ensures
        skip(s, k, true) == skip(s, j + 1, false),
    decreases j - k,
{
    if k < j {
        assert(s[k] != '\n');
        lemma_skip_comment_rest(s, k + 1, j);
    }
}

/// A comment is skipped through the end of its line.
proof fn lemma_skip_comment(s: Seq<char>, i: int, j: int)
    requires
        0 <= i < j < s.len(),
        s[i] == '#',
        s[j] == '\n',
        forall|m: int| i < m < j ==> #[trigger] s[m] != '\n',
    ensures
        skip(s, i, false) == skip(s, j + 1, false),
{
    lemma_skip_comment_rest(s, i + 1, j);
}

/// An identifier made of the characters of `key` ends where `key` does.
pub(crate) proof fn lemma_ident_end(s: Seq<char>, j: int, key: Seq<char>)
    requires
        at(s, j, key),
        forall|k: int| 0 <= k < key.len() ==> is_ident_char(#[trigger] key[k]),
        j + key.len() < s.len(),
        !is_ident_char(s[j + key.len()]),
    ensures
        ident_end(s, j) == j + key.len(),
    decreases key.len(),
{
    reveal(holds);
    if key.len() > 0 {
        assert(s[j] == key[0]);
        let rest = key.drop_first();
        assert forall|k: int| 0 <= k < rest.len() implies s[j + 1 + k] == #[trigger] rest[k] by {
            assert(s[j + (k + 1)] == key[k + 1]);
        }
        assert forall|k: int| 0 <= k < rest.len() implies is_ident_char(#[trigger] rest[k]) by {
            assert(is_ident_char(key[k + 1]));
        }
        lemma_ident_end(s, j + 1, rest);
    }
}

/// A plain word followed by a quote is the body of a string.
pub(crate) proof fn lemma_string_end(s: Seq<char>, k: int, w: Seq<char>)
    requires
        at(s, k, w),
        plain(w),
        k + w.len() < s.len(),
        s[k + w.len()] == '"',
    ensures
        string_end(s, k) == Ok::<int, crate::glossary::Failure>(k + w.len()),
    decreases w.len(),
{
    reveal(holds);
    if w.len() > 0 {
        assert(s[k] == w[0]);
        assert(w[0] != '"' && w[0] != '\\');
        if w.len() > 1 {
            assert(s[k + 1] == w[1]);
        }
        let rest = w.drop_first();
        assert forall|m: int| 0 <= m < rest.len() implies s[k + 1 + m] == #[trigger] rest[m] by {
            assert(s[k + (m + 1)] == w[m + 1]);
        }
        assert(plain(rest)) by {
            assert forall|m: int| 0 <= m < rest.len() implies {
                &&& #[trigger] rest[m] != '"'
                &&& rest[m] != '\\'
                &&& (rest[m] == '$' && m + 1 < rest.len() ==> rest[m + 1] != '{')
            } by {
                assert(rest[m] == w[m + 1]);
                if m + 1 < rest.len() {
                    assert(rest[m + 1] == w[m + 2]);
                }
            }
        }
        lemma_string_end(s, k + 1, rest);
    }
}

proof fn lemma_decimal_digits(n: nat)
    ensures
        decimal(n).len() > 0,
        forall|k: int| 0 <= k < decimal(n).len() ==> #[trigger] decimal(n)[k] != '\n',
    decreases n,
{
    if n >= 10 {
        lemma_decimal_digits(n / 10);
        assert forall|k: int| 0 <= k < decimal(n).len() implies #[trigger] decimal(n)[k] != '\n' by {
            if k < decimal(n / 10).len() {
                assert(decimal(n)[k] == decimal(n / 10)[k]);
            }
        }
    }
}

/// One entry line reads as the entry of its word, and what follows the entry on the line (the
/// padding and the comment) is skipped.
proof fn lemma_entry_line(s: Seq<char>, i: int, w: Seq<char>, n: nat, width: nat, c: bool) -> (e: int)
    requires
        at(s, i, entry_line(w, n, width, c)),
        plain(w),
    ensures
        space(s, i) == i + 4,
        s[i + 4] == '{',
        i + 4 < e <= i + entry_line(w, n, width, c).len(),
        space(s, e) == space(s, i + entry_line(w, n, width, c).len()),
        entry(s, i + 4) == Ok::<(EntrySpec, int), crate::glossary::Failure>(((lowercase(w), Some(Seq::<char>::empty())), e)),
{
    let p1 = "    { name = \""@;
    let p2 = "\"; desc = \"\"; }"@;
    let p3 = "  # "@;
    let ic = ", in code"@;
    let nl = "\n"@;
    reveal_strlit("    { name = \"");
    reveal_strlit("\"; desc = \"\"; }");
    reveal_strlit("  # ");
    reveal_strlit(", in code");
    reveal_strlit("\n");
    reveal_strlit("name");
    reveal_strlit("desc");
    let pad = spaces(padding(w, width));
    let dec = decimal(n);
    let code = if c { ic } else { Seq::<char>::empty() };
    let line = entry_line(w, n, width, c);
    assert(line == p1 + w + p2 + pad + p3 + dec + code + nl);
    lemma_at_concat(s, i, p1 + w + p2 + pad + p3 + dec + code, nl);
    lemma_at_concat(s, i, p1 + w + p2 + pad + p3 + dec, code);
    lemma_at_concat(s, i, p1 + w + p2 + pad + p3, dec);
    lemma_at_concat(s, i, p1 + w + p2 + pad, p3);
    lemma_at_concat(s, i, p1 + w + p2, pad);
    lemma_at_concat(s, i, p1 + w, p2);
    lemma_at_concat(s, i, p1, w);
    let a = i + 14 + w.len();
    let b = a + 15;
    let h = b + pad.len();
    let d = h + 4;
    let q = i + line.len();
    assert(q == d + dec.len() + code.len() + 1);
    // The opening of the entry and its name.
    lemma_at_char(s, i, p1, 4);
    lemma_at_char(s, i, p1, 5);
    lemma_at_char(s, i, p1, 10);
    lemma_at_char(s, i, p1, 11);
    lemma_at_char(s, i, p1, 12);
    lemma_at_char(s, i, p1, 13);
    assert forall|k: int| i <= k < i + 4 implies #[trigger] s[k] == ' ' by {
        lemma_at_char(s, i, p1, k - i);
    }
    lemma_skip_blanks(s, i, i + 4);
    assert(space(s, i) == i + 4);
    assert(eat(s, i + 4, '{') == (true, i + 5));
    lemma_skip_blanks(s, i + 5, i + 6);
    lemma_at_char(s, i, p1, 6);
    assert(eat(s, i + 5, '}') == (false, i + 6));
    let nm = "name"@;
    assert(at(s, i + 6, nm)) by {
        reveal(holds);
        assert forall|k: int| 0 <= k < nm.len() implies s[i + 6 + k] == #[trigger] nm[k] by {
            lemma_at_char(s, i, p1, 6 + k);
        }
    }
    assert forall|k: int| 0 <= k < nm.len() implies is_ident_char(#[trigger] nm[k]) by {}
    lemma_ident_end(s, i + 6, nm);
    lemma_at_subrange(s, i + 6, nm);
    assert(ident(s, i + 6) == Ok::<(Seq<char>, int), crate::glossary::Failure>((nm, i + 10)));
    lemma_skip_blanks(s, i + 10, i + 11);
    assert(expect(s, i + 10, '=') == Ok::<int, crate::glossary::Failure>(i + 12));
    lemma_skip_blanks(s, i + 12, i + 13);
    assert(expect(s, i + 12, '"') == Ok::<int, crate::glossary::Failure>(i + 14));
    // The word.
    lemma_at_char(s, i + 14 + w.len(), p2, 0);
    lemma_string_end(s, i + 14, w);
    lemma_at_subrange(s, i + 14, w);
    assert(string(s, i + 12) == Ok::<(Seq<char>, int), crate::glossary::Failure>((w, a + 1)));
    lemma_at_char(s, a, p2, 1);
    assert(expect(s, a + 1, ';') == Ok::<int, crate::glossary::Failure>(a + 2));
    assert(entry_fields(s, i + 5, None, None) == entry_fields(s, a + 2, Some(lowercase(w)), None));
    // The empty definition.
    lemma_at_char(s, a, p2, 2);
    lemma_at_char(s, a, p2, 3);
    lemma_skip_blanks(s, a + 2, a + 3);
    assert(eat(s, a + 2, '}') == (false, a + 3));
    let ds = "desc"@;
    assert(at(s, a + 3, ds)) by {
        reveal(holds);
        assert forall|k: int| 0 <= k < ds.len() implies s[a + 3 + k] == #[trigger] ds[k] by {
            lemma_at_char(s, a, p2, 3 + k);
        }
    }
    assert forall|k: int| 0 <= k < ds.len() implies is_ident_char(#[trigger] ds[k]) by {}
    lemma_at_char(s, a, p2, 7);
    lemma_ident_end(s, a + 3, ds);
    lemma_at_subrange(s, a + 3, ds);
    assert(ident(s, a + 3) == Ok::<(Seq<char>, int), crate::glossary::Failure>((ds, a + 7)));
    lemma_at_char(s, a, p2, 8);
    lemma_skip_blanks(s, a + 7, a + 8);
    assert(expect(s, a + 7, '=') == Ok::<int, crate::glossary::Failure>(a + 9));
    lemma_at_char(s, a, p2, 9);
    lemma_at_char(s, a, p2, 10);
    lemma_at_char(s, a, p2, 11);
    lemma_skip_blanks(s, a + 9, a + 10);
    assert(expect(s, a + 9, '"') == Ok::<int, crate::glossary::Failure>(a + 11));
    assert(string_end(s, a + 11) == Ok::<int, crate::glossary::Failure>(a + 11));
    assert(s.subrange(a + 11, a + 11) =~= Seq::<char>::empty());
    assert(string(s, a + 9) == Ok::<(Seq<char>, int), crate::glossary::Failure>((Seq::<char>::empty(), a + 12)));
    lemma_at_char(s, a, p2, 12);
    assert(expect(s, a + 12, ';') == Ok::<int, crate::glossary::Failure>(a + 13));
    assert(ds != nm) by {
        assert(ds[0] != nm[0]);
    }
    assert(entry_fields(s, a + 2, Some(lowercase(w)), None) == entry_fields(s, a + 13, Some(lowercase(w)), Some(Seq::<char>::empty())));
    lemma_at_char(s, a, p2, 13);
    lemma_at_char(s, a, p2, 14);
    lemma_skip_blanks(s, a + 13, a + 14);
    assert(eat(s, a + 13, '}') == (true, b));
    assert(entry_fields(s, a + 13, Some(lowercase(w)), Some(Seq::<char>::empty())) == Ok::<(EntrySpec, int), crate::glossary::Failure>(((lowercase(w), Some(Seq::<char>::empty())), b)));
    assert(entry(s, i + 4) == entry_fields(s, i + 5, None, None));
    // The rest of the line.
    assert forall|k: int| b <= k < h + 2 implies #[trigger] s[k] == ' ' by {
        if k < h {
            lemma_at_char(s, b, pad, k - b);
        } else {
            lemma_at_char(s, h, p3, k - h);
        }
    }
    lemma_skip_blanks(s, b, h + 2);
    lemma_at_char(s, h, p3, 2);
    lemma_at_char(s, h, p3, 3);
    lemma_at_char(s, q - 1, nl, 0);
    lemma_decimal_digits(n);
    assert forall|m: int| h + 2 < m < q - 1 implies #[trigger] s[m] != '\n' by {
        if m == h + 3 {
        } else if m < d + dec.len() {
            lemma_at_char(s, d, dec, m - d);
        } else {
            lemma_at_char(s, d + dec.len(), code, m - d - dec.len());
        }
    }
    lemma_skip_comment(s, h + 2, q - 1);
    b
}

proof fn lemma_entry_lines_first(r: Seq<Ranked>, width: nat, codes: Set<Seq<char>>)
    requires
        r.len() > 0,
    ensures
        entry_lines(r, width, codes) == entry_line(r[0].0, r[0].1, width, codes.contains(r[0].0))
            + entry_lines(r.drop_first(), width, codes),
    decreases r.len(),
{
    if r.len() > 1 {
        lemma_entry_lines_first(r.drop_last(), width, codes);
        assert(r.drop_last().drop_first() =~= r.drop_first().drop_last());
        assert(r.drop_last()[0] == r[0]);
        assert(r.drop_first().last() == r.last());
    } else {
        assert(r.drop_last() =~= Seq::<Ranked>::empty());
        assert(r.drop_first() =~= Seq::<Ranked>::empty());
    }
}

pub open spec fn all_plain(r: Seq<Ranked>) -> bool {
    forall|j: int| 0 <= j < r.len() ==> plain(#[trigger] r[j].0)
}

/// The lines of a list, and its closing bracket, read as its entries.
proof fn lemma_lines(s: Seq<char>, i: int, r: Seq<Ranked>, width: nat, codes: Set<Seq<char>>, e: int, acc: Seq<EntrySpec>)
    requires
        at(s, i, entry_lines(r, width, codes) + "  ];\n"@),
        all_plain(r),
        0 <= e <= i,
        space(s, e) == space(s, i),
    ensures
        list_items(s, e, acc) == Ok::<(Seq<EntrySpec>, int), crate::glossary::Failure>(
            (acc + declared(r), i + entry_lines(r, width, codes).len() + 3),
        ),
    decreases r.len(),
{
    let close = "  ];\n"@;
    reveal_strlit("  ];\n");
    if r.len() == 0 {
        assert(entry_lines(r, width, codes) =~= Seq::<char>::empty());
        assert(entry_lines(r, width, codes) + close =~= close);
        lemma_at_char(s, i, close, 0);
        lemma_at_char(s, i, close, 1);
        lemma_at_char(s, i, close, 2);
        lemma_skip_blanks(s, i, i + 2);
        assert(space(s, i) == i + 2);
        assert(eat(s, e, ']') == (true, i + 3));
        assert(acc + declared(r) =~= acc);
    } else {
        lemma_entry_lines_first(r, width, codes);
        let l0 = entry_line(r[0].0, r[0].1, width, codes.contains(r[0].0));
        let rest = entry_lines(r.drop_first(), width, codes);
        assert(entry_lines(r, width, codes) + close =~= l0 + (rest + close));
        lemma_at_concat(s, i, l0, rest + close);
        assert(plain(r[0].0));
        let e1 = lemma_entry_line(s, i, r[0].0, r[0].1, width, codes.contains(r[0].0));
        let d0 = (lowercase(r[0].0), Some(Seq::<char>::empty()));
        assert(eat(s, e, ']') == (false, i + 4));
        assert(list_items(s, e, acc) == list_items(s, e1, acc.push(d0)));
        assert(all_plain(r.drop_first())) by {
            assert forall|j: int| 0 <= j < r.drop_first().len() implies plain(#[trigger] r.drop_first()[j].0) by {
                assert(r.drop_first()[j] == r[j + 1]);
            }
        }
        lemma_lines(s, i + l0.len(), r.drop_first(), width, codes, e1, acc.push(d0));
        assert(acc.push(d0) + declared(r.drop_first()) =~= acc + declared(r));
    }
}

/// The result of reading a section of `r` into the glossary `g`.
pub open spec fn read_section(list: Seq<char>, r: Seq<Ranked>, g: (Terms, Terms)) -> (Terms, Terms) {
    if list == "names"@ {
        (extend(g.0, declared(r)), g.1)
    } else {
        (g.0, extend(g.1, declared(r)))
    }
}

/// A section reads as its key and its list.
proof fn lemma_section(s: Seq<char>, i: int, list: Seq<char>, r: Seq<Ranked>, codes: Set<Seq<char>>, e: int, g: (Terms, Terms)) -> (f: int)
    requires
        at(s, i, section(list, r, codes)),
        list == "names"@ || list == "verbs"@,
        all_plain(r),
        0 <= e <= i,
        space(s, e) == space(s, i),
    ensures
        i < f <= i + section(list, r, codes).len(),
        space(s, f) == space(s, i + section(list, r, codes).len()),
        glossary_items(s, e, g) == glossary_items(s, f, read_section(list, r, g)),
{
    let two = "  "@;
    let eq = " = [\n"@;
    let close = "  ];\n"@;
    reveal_strlit("  ");
    reveal_strlit(" = [\n");
    reveal_strlit("  ];\n");
    reveal_strlit("names");
    reveal_strlit("verbs");
    let lines = entry_lines(r, widest(r), codes);
    assert(section(list, r, codes) == two + list + eq + lines + close);
    lemma_at_concat(s, i, two + list + eq + lines, close);
    lemma_at_concat(s, i, two + list + eq, lines);
    lemma_at_concat(s, i, two + list, eq);
    lemma_at_concat(s, i, two, list);
    assert(list.len() == 5);
    lemma_at_char(s, i, two, 0);
    lemma_at_char(s, i, two, 1);
    lemma_at_char(s, i + 2, list, 0);
    lemma_skip_blanks(s, i, i + 2);
    assert(space(s, i) == i + 2);
    assert(eat(s, e, '}') == (false, i + 2));
    assert forall|k: int| 0 <= k < list.len() implies is_ident_char(#[trigger] list[k]) by {}
    lemma_at_char(s, i + 7, eq, 0);
    lemma_ident_end(s, i + 2, list);
    lemma_at_subrange(s, i + 2, list);
    assert(ident(s, i + 2) == Ok::<(Seq<char>, int), crate::glossary::Failure>((list, i + 7)));
    lemma_at_char(s, i + 7, eq, 1);
    lemma_skip_blanks(s, i + 7, i + 8);
    assert(expect(s, i + 7, '=') == Ok::<int, crate::glossary::Failure>(i + 9));
    lemma_at_char(s, i + 7, eq, 2);
    lemma_at_char(s, i + 7, eq, 3);
    lemma_skip_blanks(s, i + 9, i + 10);
    assert(expect(s, i + 9, '[') == Ok::<int, crate::glossary::Failure>(i + 11));
    lemma_at_char(s, i + 7, eq, 4);
    assert(space(s, i + 11) == space(s, i + 12));
    assert(at(s, i + 12, lines + close)) by {
        reveal(holds);
        assert forall|k: int| 0 <= k < (lines + close).len() implies s[i + 12 + k] == #[trigger] (lines + close)[k] by {
            if k < lines.len() {
                lemma_at_char(s, i + 12, lines, k);
            } else {
                lemma_at_char(s, i + 12 + lines.len(), close, k - lines.len());
            }
        }
    }
    lemma_lines(s, i + 12, r, widest(r), codes, i + 11, Seq::<EntrySpec>::empty());
    assert(Seq::<EntrySpec>::empty() + declared(r) =~= declared(r));
    let end = i + 12 + lines.len() + 3;
    lemma_at_char(s, i + 12 + lines.len(), close, 3);
    lemma_at_char(s, i + 12 + lines.len(), close, 4);
    assert(expect(s, end, ';') == Ok::<int, crate::glossary::Failure>(end + 1));
    assert(("names"@)[0] != ("verbs"@)[0]);
    assert(glossary_items(s, e, g) == glossary_items(s, end + 1, read_section(list, r, g)));
    assert(space(s, end + 1) == space(s, end + 2));
    end + 1
}

/// A comment line of the header is skipped.
proof fn lemma_header_line(s: Seq<char>, o: int, line: Seq<char>)
    requires
        at(s, o, line),
        line.len() >= 2,
        line[0] == '#',
        line[line.len() - 1] == '\n',
        forall|k: int| 0 <= k < line.len() - 1 ==> #[trigger] line[k] != '\n',
    ensures
        skip(s, o, false) == skip(s, o + line.len(), false),
{
    lemma_at_char(s, o, line, 0);
    lemma_at_char(s, o, line, line.len() - 1);
    assert forall|m: int| o < m < o + line.len() - 1 implies #[trigger] s[m] != '\n' by {
        lemma_at_char(s, o, line, m - o);
    }
    lemma_skip_comment(s, o, o + line.len() - 1);
}

/// The header is skipped.
proof fn lemma_header(s: Seq<char>)
    requires
        at(s, 0, header()),
    ensures
        skip(s, 0, false) == skip(s, header().len() as int, false),
{
    let l1 = "# Written by `ste_checker --suggest-glossary`. Every word below is absent from the\n"@;
    let l2 = "# ASD-STE100 approved vocabulary. Delete the ones that are ordinary English — only\n"@;
    let l3 = "# Technical Names and Technical Verbs belong here — and define the ones you keep.\n"@;
    reveal_strlit("# Written by `ste_checker --suggest-glossary`. Every word below is absent from the\n");
    reveal_strlit("# ASD-STE100 approved vocabulary. Delete the ones that are ordinary English — only\n");
    reveal_strlit("# Technical Names and Technical Verbs belong here — and define the ones you keep.\n");
    lemma_at_concat(s, 0, l1 + l2, l3);
    lemma_at_concat(s, 0, l1, l2);
    assert(forall|k: int| 0 <= k < l1.len() - 1 ==> #[trigger] l1[k] != '\n');
    assert(forall|k: int| 0 <= k < l2.len() - 1 ==> #[trigger] l2[k] != '\n');
    assert(forall|k: int| 0 <= k < l3.len() - 1 ==> #[trigger] l3[k] != '\n');
    lemma_header_line(s, 0, l1);
    lemma_header_line(s, l1.len() as int, l2);
    lemma_header_line(s, (l1.len() + l2.len()) as int, l3);
}

proof fn lemma_opening(s: Seq<char>, hl: int)
    requires
        at(s, 0, header()),
        hl == header().len(),
        at(s, hl, "{\n"@),
    ensures
        expect(s, 0, '{') == Ok::<int, crate::glossary::Failure>(hl + 1),
        space(s, hl + 1) == space(s, hl + 2),
{
    reveal_strlit("{\n");
    lemma_header(s);
    lemma_at_char(s, hl, "{\n"@, 0);
    lemma_at_char(s, hl, "{\n"@, 1);
}

proof fn lemma_closing(s: Seq<char>, c: int, f: int, g: (Terms, Terms))
    requires
        at(s, c, "}\n"@),
        s.len() == c + 2,
        0 <= f <= c,
        space(s, f) == space(s, c),
    ensures
        glossary_items(s, f, g) == Ok::<((Terms, Terms), int), crate::glossary::Failure>((g, c + 1)),
        space(s, c + 1) == s.len(),
{
    reveal_strlit("}\n");
    lemma_at_char(s, c, "}\n"@, 0);
    lemma_at_char(s, c, "}\n"@, 1);
    assert(space(s, c) == c);
    assert(skip(s, c + 2, false) == c + 2);
    assert(skip(s, c + 1, false) == c + 2);
}

pub(crate) proof fn lemma_at_self(s: Seq<char>)
    ensures
        at(s, 0, s),
{
    reveal(holds);
    assert forall|k: int| 0 <= k < s.len() implies s[0 + k] == #[trigger] s[k] by {}
}

/// A skeleton is a glossary, and what the glossary declares is what the skeleton lists: each
/// name and each verb, lowercased as every glossary entry is, with an empty definition.
pub proof fn skeleton_reads_back(rn: Seq<Ranked>, rv: Seq<Ranked>, codes: Set<Seq<char>>)
    requires
        all_plain(rn),
        all_plain(rv),
    ensures
        parse_glossary(skeleton_text(rn, rv, codes)) == Ok::<(Terms, Terms), crate::glossary::Failure>(
            (extend(Terms::empty(), declared(rn)), extend(Terms::empty(), declared(rv))),
        ),
{
    let s = skeleton_text(rn, rv, codes);
    let h = header();
    let open = "{\n"@;
    let sn = section("names"@, rn, codes);
    let sv = section("verbs"@, rv, codes);
    let end = "}\n"@;
    reveal_strlit("{\n");
    reveal_strlit("}\n");
    assert(s == h + open + sn + sv + end);
    lemma_at_self(s);
    lemma_at_concat(s, 0, h + open + sn + sv, end);
    lemma_at_concat(s, 0, h + open + sn, sv);
    lemma_at_concat(s, 0, h + open, sn);
    lemma_at_concat(s, 0, h, open);
    let hl = h.len() as int;
    lemma_opening(s, hl);
    let g0 = (Terms::empty(), Terms::empty());
    let f1 = lemma_section(s, hl + 2, "names"@, rn, codes, hl + 1, g0);
    let g1 = read_section("names"@, rn, g0);
    let f2 = lemma_section(s, hl + 2 + sn.len(), "verbs"@, rv, codes, f1, g1);
    let g2 = read_section("verbs"@, rv, g1);
    assert(g2 == (extend(Terms::empty(), declared(rn)), extend(Terms::empty(), declared(rv)))) by {
        reveal_strlit("names");
        reveal_strlit("verbs");
        assert(("names"@)[0] != ("verbs"@)[0]);
    }
    let c = hl + 2 + sn.len() + sv.len();
    lemma_closing(s, c, f2, g2);
}

// ---------------------------------------------------------------------------------------------
// A glossary written out in the plain shape reads back as what was written.
// ---------------------------------------------------------------------------------------------

/// An entry as it is written: the name, the definition if there is one, and, for an entry
/// without a definition, whether it is written as a bare string rather than `{ name = ...; }`.
pub type Written = (Seq<char>, Option<Seq<char>>, bool);

pub open spec fn written_line(e: Written) -> Seq<char> {
    match e.1 {
        Some(d) => "    { name = \""@ + e.0 + "\"; desc = \""@ + d + "\"; }\n"@,
        None => if e.2 {
            "    \""@ + e.0 + "\"\n"@
        } else {
            "    { name = \""@ + e.0 + "\"; }\n"@
        },
    }
}

pub open spec fn written_lines(es: Seq<Written>) -> Seq<char>
    decreases es.len(),
{
    if es.len() == 0 {
        Seq::empty()
    } else {
        written_lines(es.drop_last()) + written_line(es.last())
    }
}

pub open spec fn written_section(list: Seq<char>, es: Seq<Written>) -> Seq<char> {
    "  "@ + list + " = [\n"@ + written_lines(es) + "  ];\n"@
}

/// A glossary file with the entries `ns` among the names and `vs` among the verbs.
pub open spec fn written_glossary(ns: Seq<Written>, vs: Seq<Written>) -> Seq<char> {
    "{\n"@ + written_section("names"@, ns) + written_section("verbs"@, vs) + "}\n"@
}

/// What the parser reads from written entries: each name lowercased, with its definition.
pub open spec fn read_back(es: Seq<Written>) -> Seq<EntrySpec> {
    es.map_values(|e: Written| (lowercase(e.0), e.1))
}

/// Entries a Nix string holds as they are.
pub open spec fn all_plain_written(es: Seq<Written>) -> bool {
    forall|j: int|
        0 <= j < es.len() ==> plain((#[trigger] es[j]).0) && (es[j].1 matches Some(d) ==> plain(d))
}

/// The opening `    { name = "` of an entry and its name read as the entry's first field.
proof fn lemma_named_opening(s: Seq<char>, i: int, n: Seq<char>)
    requires
        at(s, i, "    { name = \""@ + n + "\";"@),
        plain(n),
    ensures
        space(s, i) == i + 4,
        s[i + 4] == '{',
        eat(s, i + 4, '{') == (true, i + 5),
        entry_fields(s, i + 5, None, None) == entry_fields(s, i + 16 + n.len(), Some(lowercase(n)), None),
{
    let p1 = "    { name = \""@;
    let p2 = "\";"@;
    reveal_strlit("    { name = \"");
    reveal_strlit("\";");
    reveal_strlit("name");
    lemma_at_concat(s, i, p1 + n, p2);
    lemma_at_concat(s, i, p1, n);
    let a = i + 14 + n.len();
    lemma_at_char(s, i, p1, 4);
    lemma_at_char(s, i, p1, 5);
    lemma_at_char(s, i, p1, 10);
    lemma_at_char(s, i, p1, 11);
    lemma_at_char(s, i, p1, 12);
    lemma_at_char(s, i, p1, 13);
    assert forall|k: int| i <= k < i + 4 implies #[trigger] s[k] == ' ' by {
        lemma_at_char(s, i, p1, k - i);
    }
    lemma_skip_blanks(s, i, i + 4);
    lemma_skip_blanks(s, i + 5, i + 6);
    lemma_at_char(s, i, p1, 6);
    assert(eat(s, i + 5, '}') == (false, i + 6));
    let nm = "name"@;
    assert(at(s, i + 6, nm)) by {
        reveal(holds);
        assert forall|k: int| 0 <= k < nm.len() implies s[i + 6 + k] == #[trigger] nm[k] by {
            lemma_at_char(s, i, p1, 6 + k);
        }
    }
    assert forall|k: int| 0 <= k < nm.len() implies is_ident_char(#[trigger] nm[k]) by {}
    lemma_ident_end(s, i + 6, nm);
    lemma_at_subrange(s, i + 6, nm);
    assert(ident(s, i + 6) == Ok::<(Seq<char>, int), crate::glossary::Failure>((nm, i + 10)));
    lemma_skip_blanks(s, i + 10, i + 11);
    assert(expect(s, i + 10, '=') == Ok::<int, crate::glossary::Failure>(i + 12));
    lemma_skip_blanks(s, i + 12, i + 13);
    assert(expect(s, i + 12, '"') == Ok::<int, crate::glossary::Failure>(i + 14));
    lemma_at_char(s, a, p2, 0);
    lemma_at_char(s, a, p2, 1);
    lemma_string_end(s, i + 14, n);
    lemma_at_subrange(s, i + 14, n);
    assert(string(s, i + 12) == Ok::<(Seq<char>, int), crate::glossary::Failure>((n, a + 1)));
    assert(expect(s, a + 1, ';') == Ok::<int, crate::glossary::Failure>(a + 2));
}

/// One written line reads as its entry, and ends on the line break.
proof fn lemma_written_line(s: Seq<char>, i: int, e: Written) -> (f: int)
    requires
        at(s, i, written_line(e)),
        plain(e.0),
        e.1 matches Some(d) ==> plain(d),
    ensures
        space(s, i) == i + 4,
        s[i + 4] == '{' || s[i + 4] == '"',
        i + 4 < f,
        f + 1 == i + written_line(e).len(),
        s[f] == '\n',
        entry(s, i + 4) == Ok::<(EntrySpec, int), crate::glossary::Failure>(((lowercase(e.0), e.1), f)),
{
    let n = e.0;
    let line = written_line(e);
    reveal_strlit("    { name = \"");
    reveal_strlit("\";");
    reveal_strlit("\"; desc = \"");
    reveal_strlit("\"; }\n");
    reveal_strlit("    \"");
    reveal_strlit("\"\n");
    reveal_strlit(" desc = \"");
    reveal_strlit(" }\n");
    reveal_strlit("desc");
    reveal_strlit("name");
    let opening = "    { name = \""@ + n + "\";"@;
    match e.1 {
        Some(d) => {
            let mid = " desc = \""@;
            let tail = "\"; }\n"@;
            assert(line =~= opening + mid + d + tail);
            lemma_at_concat(s, i, opening + mid + d, tail);
            lemma_at_concat(s, i, opening + mid, d);
            lemma_at_concat(s, i, opening, mid);
            lemma_named_opening(s, i, n);
            let a = i + 16 + n.len();
            let b = a + 9 + d.len();
            lemma_at_char(s, a, mid, 0);
            lemma_at_char(s, a, mid, 1);
            lemma_skip_blanks(s, a, a + 1);
            assert(eat(s, a, '}') == (false, a + 1));
            let ds = "desc"@;
            assert(at(s, a + 1, ds)) by {
                reveal(holds);
                assert forall|k: int| 0 <= k < ds.len() implies s[a + 1 + k] == #[trigger] ds[k] by {
                    lemma_at_char(s, a, mid, 1 + k);
                }
            }
            assert forall|k: int| 0 <= k < ds.len() implies is_ident_char(#[trigger] ds[k]) by {}
            lemma_at_char(s, a, mid, 5);
            lemma_ident_end(s, a + 1, ds);
            lemma_at_subrange(s, a + 1, ds);
            assert(ident(s, a + 1) == Ok::<(Seq<char>, int), crate::glossary::Failure>((ds, a + 5)));
            lemma_at_char(s, a, mid, 6);
            lemma_skip_blanks(s, a + 5, a + 6);
            assert(expect(s, a + 5, '=') == Ok::<int, crate::glossary::Failure>(a + 7));
            lemma_at_char(s, a, mid, 7);
            lemma_at_char(s, a, mid, 8);
            lemma_skip_blanks(s, a + 7, a + 8);
            assert(expect(s, a + 7, '"') == Ok::<int, crate::glossary::Failure>(a + 9));
            lemma_at_char(s, b, tail, 0);
            lemma_string_end(s, a + 9, d);
            lemma_at_subrange(s, a + 9, d);
            assert(string(s, a + 7) == Ok::<(Seq<char>, int), crate::glossary::Failure>((d, b + 1)));
            lemma_at_char(s, b, tail, 1);
            assert(expect(s, b + 1, ';') == Ok::<int, crate::glossary::Failure>(b + 2));
            assert(ds != "name"@) by {
                assert(ds[0] != ("name"@)[0]);
            }
            assert(entry_fields(s, a, Some(lowercase(n)), None) == entry_fields(s, b + 2, Some(lowercase(n)), Some(d)));
            lemma_at_char(s, b, tail, 2);
            lemma_at_char(s, b, tail, 3);
            lemma_at_char(s, b, tail, 4);
            lemma_skip_blanks(s, b + 2, b + 3);
            assert(eat(s, b + 2, '}') == (true, b + 4));
            assert(entry(s, i + 4) == entry_fields(s, i + 5, None, None));
            b + 4
        },
        None => if e.2 {
            let p1 = "    \""@;
            let p2 = "\"\n"@;
            assert(line =~= p1 + n + p2);
            lemma_at_concat(s, i, p1 + n, p2);
            lemma_at_concat(s, i, p1, n);
            assert forall|k: int| i <= k < i + 4 implies #[trigger] s[k] == ' ' by {
                lemma_at_char(s, i, p1, k - i);
            }
            lemma_at_char(s, i, p1, 4);
            lemma_skip_blanks(s, i, i + 4);
            assert(eat(s, i + 4, '{') == (false, i + 4));
            assert(expect(s, i + 4, '"') == Ok::<int, crate::glossary::Failure>(i + 5));
            let q = i + 5 + n.len();
            lemma_at_char(s, q, p2, 0);
            lemma_at_char(s, q, p2, 1);
            lemma_string_end(s, i + 5, n);
            lemma_at_subrange(s, i + 5, n);
            assert(string(s, i + 4) == Ok::<(Seq<char>, int), crate::glossary::Failure>((n, q + 1)));
            q + 1
        } else {
            let tail = " }\n"@;
            assert(line =~= opening + tail);
            lemma_at_concat(s, i, opening, tail);
            lemma_named_opening(s, i, n);
            let a = i + 16 + n.len();
            lemma_at_char(s, a, tail, 0);
            lemma_at_char(s, a, tail, 1);
            lemma_at_char(s, a, tail, 2);
            lemma_skip_blanks(s, a, a + 1);
            assert(eat(s, a, '}') == (true, a + 2));
            assert(entry(s, i + 4) == entry_fields(s, i + 5, None, None));
            a + 2
        },
    }
}

proof fn lemma_written_lines_first(es: Seq<Written>)
    requires
        es.len() > 0,
    ensures
        written_lines(es) == written_line(es[0]) + written_lines(es.drop_first()),
    decreases es.len(),
{
    if es.len() > 1 {
        lemma_written_lines_first(es.drop_last());
        assert(es.drop_last().drop_first() =~= es.drop_first().drop_last());
        assert(es.drop_last()[0] == es[0]);
        assert(es.drop_first().last() == es.last());
    } else {
        assert(es.drop_last() =~= Seq::<Written>::empty());
        assert(es.drop_first() =~= Seq::<Written>::empty());
    }
}

proof fn lemma_written_lines(s: Seq<char>, i: int, es: Seq<Written>, e: int, acc: Seq<EntrySpec>)
    requires
        at(s, i, written_lines(es) + "  ];\n"@),
        all_plain_written(es),
        0 <= e <= i,
        space(s, e) == space(s, i),
    ensures
        list_items(s, e, acc) == Ok::<(Seq<EntrySpec>, int), crate::glossary::Failure>(
            (acc + read_back(es), i + written_lines(es).len() + 3),
        ),
    decreases es.len(),
{
    let close = "  ];\n"@;
    reveal_strlit("  ];\n");
    if es.len() == 0 {
        assert(written_lines(es) =~= Seq::<char>::empty());
        assert(written_lines(es) + close =~= close);
        lemma_at_char(s, i, close, 0);
        lemma_at_char(s, i, close, 1);
        lemma_at_char(s, i, close, 2);
        lemma_skip_blanks(s, i, i + 2);
        assert(space(s, i) == i + 2);
        assert(eat(s, e, ']') == (true, i + 3));
        assert(acc + read_back(es) =~= acc);
    } else {
        lemma_written_lines_first(es);
        let l0 = written_line(es[0]);
        let rest = written_lines(es.drop_first());
        assert(written_lines(es) + close =~= l0 + (rest + close));
        lemma_at_concat(s, i, l0, rest + close);
        assert(plain(es[0].0));
        let f = lemma_written_line(s, i, es[0]);
        let d0 = (lowercase(es[0].0), es[0].1);
        assert(eat(s, e, ']') == (false, i + 4));
        assert(list_items(s, e, acc) == list_items(s, f, acc.push(d0)));
        assert(space(s, f) == space(s, f + 1));
        assert(all_plain_written(es.drop_first())) by {
            assert forall|j: int| 0 <= j < es.drop_first().len() implies plain((#[trigger] es.drop_first()[j]).0)
                && (es.drop_first()[j].1 matches Some(d) ==> plain(d)) by {
                assert(es.drop_first()[j] == es[j + 1]);
            }
        }
        lemma_written_lines(s, i + l0.len(), es.drop_first(), f, acc.push(d0));
        assert(acc.push(d0) + read_back(es.drop_first()) =~= acc + read_back(es));
    }
}

pub open spec fn read_written_section(list: Seq<char>, es: Seq<Written>, g: (Terms, Terms)) -> (Terms, Terms) {
    if list == "names"@ {
        (extend(g.0, read_back(es)), g.1)
    } else {
        (g.0, extend(g.1, read_back(es)))
    }
}

proof fn lemma_written_section(s: Seq<char>, i: int, list: Seq<char>, es: Seq<Written>, e: int, g: (Terms, Terms)) -> (f: int)
    requires
        at(s, i, written_section(list, es)),
        list == "names"@ || list == "verbs"@,
        all_plain_written(es),
        0 <= e <= i,
        space(s, e) == space(s, i),
    ensures
        i < f <= i + written_section(list, es).len(),
        space(s, f) == space(s, i + written_section(list, es).len()),
        glossary_items(s, e, g) == glossary_items(s, f, read_written_section(list, es, g)),
{
    let two = "  "@;
    let eq = " = [\n"@;
    let close = "  ];\n"@;
    reveal_strlit("  ");
    reveal_strlit(" = [\n");
    reveal_strlit("  ];\n");
    reveal_strlit("names");
    reveal_strlit("verbs");
    let lines = written_lines(es);
    assert(written_section(list, es) == two + list + eq + lines + close);
    lemma_at_concat(s, i, two + list + eq + lines, close);
    lemma_at_concat(s, i, two + list + eq, lines);
    lemma_at_concat(s, i, two + list, eq);
    lemma_at_concat(s, i, two, list);
    assert(list.len() == 5);
    lemma_at_char(s, i, two, 0);
    lemma_at_char(s, i, two, 1);
    lemma_at_char(s, i + 2, list, 0);
    lemma_skip_blanks(s, i, i + 2);
    assert(space(s, i) == i + 2);
    assert(eat(s, e, '}') == (false, i + 2));
    assert forall|k: int| 0 <= k < list.len() implies is_ident_char(#[trigger] list[k]) by {}
    lemma_at_char(s, i + 7, eq, 0);
    lemma_ident_end(s, i + 2, list);
    lemma_at_subrange(s, i + 2, list);
    assert(ident(s, i + 2) == Ok::<(Seq<char>, int), crate::glossary::Failure>((list, i + 7)));
    lemma_at_char(s, i + 7, eq, 1);
    lemma_skip_blanks(s, i + 7, i + 8);
    assert(expect(s, i + 7, '=') == Ok::<int, crate::glossary::Failure>(i + 9));
    lemma_at_char(s, i + 7, eq, 2);
    lemma_at_char(s, i + 7, eq, 3);
    lemma_skip_blanks(s, i + 9, i + 10);
    assert(expect(s, i + 9, '[') == Ok::<int, crate::glossary::Failure>(i + 11));
    lemma_at_char(s, i + 7, eq, 4);
    assert(space(s, i + 11) == space(s, i + 12));
    assert(at(s, i + 12, lines + close)) by {
        reveal(holds);
        assert forall|k: int| 0 <= k < (lines + close).len() implies s[i + 12 + k] == #[trigger] (lines + close)[k] by {
            if k < lines.len() {
                lemma_at_char(s, i + 12, lines, k);
            } else {
                lemma_at_char(s, i + 12 + lines.len(), close, k - lines.len());
            }
        }
    }
    lemma_written_lines(s, i + 12, es, i + 11, Seq::<EntrySpec>::empty());
    assert(Seq::<EntrySpec>::empty() + read_back(es) =~= read_back(es));
    let end = i + 12 + lines.len() + 3;
    lemma_at_char(s, i + 12 + lines.len(), close, 3);
    lemma_at_char(s, i + 12 + lines.len(), close, 4);
    assert(expect(s, end, ';') == Ok::<int, crate::glossary::Failure>(end + 1));
    assert(("names"@)[0] != ("verbs"@)[0]);
    assert(glossary_items(s, e, g) == glossary_items(s, end + 1, read_written_section(list, es, g)));
    assert(space(s, end + 1) == space(s, end + 2));
    end + 1
}

/// A glossary written out reads back as what was written: each name lowercased, with its
/// definition, a later entry for a name replacing an earlier one, and the two spellings of an
/// entry without a definition reading the same. It holds for names and definitions that a Nix
/// string holds as they are (no quote, backslash or interpolation), which a definition with `#`,
/// brackets or line breaks is.
pub proof fn written_glossary_reads_back(ns: Seq<Written>, vs: Seq<Written>)
    requires
        all_plain_written(ns),
        all_plain_written(vs),
    ensures
        parse_glossary(written_glossary(ns, vs)) == Ok::<(Terms, Terms), crate::glossary::Failure>(
            (extend(Terms::empty(), read_back(ns)), extend(Terms::empty(), read_back(vs))),
        ),
{
    let s = written_glossary(ns, vs);
    let open = "{\n"@;
    let sn = written_section("names"@, ns);
    let sv = written_section("verbs"@, vs);
    let end = "}\n"@;
    reveal_strlit("{\n");
    reveal_strlit("}\n");
    assert(s == open + sn + sv + end);
    lemma_at_self(s);
    lemma_at_concat(s, 0, open + sn + sv, end);
    lemma_at_concat(s, 0, open + sn, sv);
    lemma_at_concat(s, 0, open, sn);
    lemma_at_char(s, 0, open, 0);
    lemma_at_char(s, 0, open, 1);
    assert(space(s, 0) == 0);
    assert(expect(s, 0, '{') == Ok::<int, crate::glossary::Failure>(1));
    assert(space(s, 1) == space(s, 2));
    let g0 = (Terms::empty(), Terms::empty());
    let f1 = lemma_written_section(s, 2, "names"@, ns, 1, g0);
    let g1 = read_written_section("names"@, ns, g0);
    let f2 = lemma_written_section(s, (2 + sn.len()) as int, "verbs"@, vs, f1, g1);
    let g2 = read_written_section("verbs"@, vs, g1);
    assert(g2 == (extend(Terms::empty(), read_back(ns)), extend(Terms::empty(), read_back(vs)))) by {
        reveal_strlit("names");
        reveal_strlit("verbs");
        assert(("names"@)[0] != ("verbs"@)[0]);
    }
    let c = (2 + sn.len() + sv.len()) as int;
    lemma_closing(s, c, f2, g2);
}

/// `es` writes out the terms `m`: each term once, spelled as the parser reads it back, with its
/// definition.
pub open spec fn writes_out(m: Terms, es: Seq<Written>) -> bool {
    &&& forall|j: int| 0 <= j < es.len() ==> lowercase((#[trigger] es[j]).0) == es[j].0
    &&& forall|j: int| 0 <= j < es.len() ==> m.contains_key((#[trigger] es[j]).0) && m[es[j].0] == es[j].1
    &&& forall|a: int, b: int| 0 <= a < b < es.len() ==> (#[trigger] es[a]).0 != (#[trigger] es[b]).0
    &&& forall|k: Seq<char>| #[trigger] m.contains_key(k) ==> exists|j: int| 0 <= j < es.len() && (#[trigger] es[j]).0 == k
}

proof fn lemma_extend_distinct(es: Seq<EntrySpec>)
    requires
        forall|a: int, b: int| 0 <= a < b < es.len() ==> (#[trigger] es[a]).0 != (#[trigger] es[b]).0,
    ensures
        forall|k: Seq<char>| extend(Terms::empty(), es).contains_key(k) <==> exists|j: int| 0 <= j < es.len() && (#[trigger] es[j]).0 == k,
        forall|j: int| 0 <= j < es.len() ==> extend(Terms::empty(), es)[(#[trigger] es[j]).0] == es[j].1,
    decreases es.len(),
{
    if es.len() > 0 {
        let prev = es.drop_last();
        assert forall|a: int, b: int| 0 <= a < b < prev.len() implies (#[trigger] prev[a]).0 != (#[trigger] prev[b]).0 by {
            assert(prev[a] == es[a] && prev[b] == es[b]);
        }
        lemma_extend_distinct(prev);
        let m = extend(Terms::empty(), es);
        let pm = extend(Terms::empty(), prev);
        assert(m == pm.insert(es.last().0, es.last().1));
        assert forall|k: Seq<char>| m.contains_key(k) <==> exists|j: int| 0 <= j < es.len() && (#[trigger] es[j]).0 == k by {
            if m.contains_key(k) && k != es.last().0 {
                assert(pm.contains_key(k));
                let j = choose|j: int| 0 <= j < prev.len() && (#[trigger] prev[j]).0 == k;
                assert(es[j] == prev[j]);
            }
            if m.contains_key(k) && k == es.last().0 {
                assert(es[es.len() - 1].0 == k);
            }
            if exists|j: int| 0 <= j < es.len() && (#[trigger] es[j]).0 == k {
                let j = choose|j: int| 0 <= j < es.len() && (#[trigger] es[j]).0 == k;
                if j < es.len() - 1 {
                    assert(prev[j] == es[j]);
                }
            }
        }
        assert forall|j: int| 0 <= j < es.len() implies m[(#[trigger] es[j]).0] == es[j].1 by {
            if j < es.len() - 1 {
                assert(prev[j] == es[j]);
                assert(es[j].0 != es[es.len() - 1].0);
            }
        }
    }
}

pub(crate) proof fn lemma_reads_back_as(m: Terms, es: Seq<Written>)
    requires
        writes_out(m, es),
    ensures
        extend(Terms::empty(), read_back(es)) == m,
{
    let r = read_back(es);
    assert forall|a: int, b: int| 0 <= a < b < r.len() implies (#[trigger] r[a]).0 != (#[trigger] r[b]).0 by {
        assert(r[a].0 == es[a].0 && r[b].0 == es[b].0);
    }
    lemma_extend_distinct(r);
    let e = extend(Terms::empty(), r);
    assert forall|k: Seq<char>| e.contains_key(k) <==> m.contains_key(k) by {
        if e.contains_key(k) {
            let j = choose|j: int| 0 <= j < r.len() && (#[trigger] r[j]).0 == k;
            assert(r[j].0 == es[j].0);
        }
        if m.contains_key(k) {
            let j = choose|j: int| 0 <= j < es.len() && (#[trigger] es[j]).0 == k;
            assert(r[j].0 == k);
        }
    }
    assert forall|k: Seq<char>| e.contains_key(k) implies e[k] == m[k] by {
        let j = choose|j: int| 0 <= j < r.len() && (#[trigger] r[j]).0 == k;
        assert(r[j] == (es[j].0, es[j].1));
    }
    assert(e =~= m);
}

/// Whatever a glossary holds, the file can hold: a glossary whose names are lowercase and whose
/// names and definitions a Nix string holds as they are, written out entry by entry in either
/// spelling, reads back as itself.
pub proof fn a_written_glossary_reads_back_as_itself(g: (Terms, Terms), ns: Seq<Written>, vs: Seq<Written>)
    requires
        writes_out(g.0, ns),
        writes_out(g.1, vs),
        all_plain_written(ns),
        all_plain_written(vs),
    ensures
        parse_glossary(written_glossary(ns, vs)) == Ok::<(Terms, Terms), crate::glossary::Failure>(g),
{
    written_glossary_reads_back(ns, vs);
    lemma_reads_back_as(g.0, ns);
    lemma_reads_back_as(g.1, vs);
}

#[verifier::spinoff_prover]
proof fn lemma_bare_entry(w: Seq<char>)
    requires
        plain(w),
    ensures
        entry("\""@ + w + "\""@, 0) == Ok::<(EntrySpec, int), crate::glossary::Failure>(
            ((lowercase(w), None), ("\""@ + w + "\""@).len() as int),
        ),
{
    let q = "\""@;
    reveal_strlit("\"");
    let bare = q + w + q;
    lemma_at_self(bare);
    lemma_at_concat(bare, 0, q + w, q);
    lemma_at_concat(bare, 0, q, w);
    lemma_at_char(bare, 0, q, 0);
    lemma_at_char(bare, 1 + w.len() as int, q, 0);
    assert(eat(bare, 0, '{') == (false, 0int));
    assert(expect(bare, 0, '"') == Ok::<int, crate::glossary::Failure>(1));
    lemma_string_end(bare, 1, w);
    lemma_at_subrange(bare, 1, w);
    assert(string(bare, 0) == Ok::<(Seq<char>, int), crate::glossary::Failure>((w, 2 + w.len() as int)));

}

#[verifier::spinoff_prover]
#[verifier::rlimit(40)]
proof fn lemma_named_entry(w: Seq<char>)
    requires
        plain(w),
    ensures
        entry("{ name = \""@ + w + "\"; }"@, 0) == Ok::<(EntrySpec, int), crate::glossary::Failure>(
            ((lowercase(w), None), ("{ name = \""@ + w + "\"; }"@).len() as int),
        ),
{
    let p1 = "{ name = \""@;
    let p2 = "\"; }"@;
    reveal_strlit("{ name = \"");
    reveal_strlit("\"; }");
    reveal_strlit("name");
    let named = p1 + w + p2;
    let a = 10 + w.len() as int;
    lemma_at_self(named);
    lemma_at_concat(named, 0, p1 + w, p2);
    lemma_at_concat(named, 0, p1, w);
    lemma_at_char(named, 0, p1, 0);
    lemma_at_char(named, 0, p1, 1);
    lemma_at_char(named, 0, p1, 6);
    lemma_at_char(named, 0, p1, 7);
    lemma_at_char(named, 0, p1, 8);
    lemma_at_char(named, 0, p1, 9);
    assert(eat(named, 0, '{') == (true, 1int));
    lemma_skip_blanks(named, 1, 2);
    lemma_at_char(named, 0, p1, 2);
    assert(eat(named, 1, '}') == (false, 2int));
    let nm = "name"@;
    assert(at(named, 2, nm)) by {
        reveal(holds);
        assert forall|k: int| 0 <= k < nm.len() implies named[2 + k] == #[trigger] nm[k] by {
            lemma_at_char(named, 0, p1, 2 + k);
        }
    }
    assert forall|k: int| 0 <= k < nm.len() implies is_ident_char(#[trigger] nm[k]) by {}
    lemma_ident_end(named, 2, nm);
    lemma_at_subrange(named, 2, nm);
    assert(ident(named, 2) == Ok::<(Seq<char>, int), crate::glossary::Failure>((nm, 6)));
    lemma_skip_blanks(named, 6, 7);
    assert(expect(named, 6, '=') == Ok::<int, crate::glossary::Failure>(8));
    lemma_skip_blanks(named, 8, 9);
    assert(expect(named, 8, '"') == Ok::<int, crate::glossary::Failure>(10));
    lemma_at_char(named, a, p2, 0);
    lemma_at_char(named, a, p2, 1);
    lemma_at_char(named, a, p2, 2);
    lemma_at_char(named, a, p2, 3);
    lemma_string_end(named, 10, w);
    lemma_at_subrange(named, 10, w);
    assert(string(named, 8) == Ok::<(Seq<char>, int), crate::glossary::Failure>((w, a + 1)));
    assert(expect(named, a + 1, ';') == Ok::<int, crate::glossary::Failure>(a + 2));
    assert(entry_fields(named, 1, None, None) == entry_fields(named, a + 2, Some(lowercase(w)), None));
    lemma_skip_blanks(named, a + 2, a + 3);
    assert(eat(named, a + 2, '}') == (true, a + 4));
}

/// The two spellings of an entry without a definition read the same: a bare string and
/// `{ name = "..."; }` each read, as a whole, as the name lowercased with no definition.
pub proof fn entry_spellings_agree(w: Seq<char>)
    requires
        plain(w),
    ensures
        entry("\""@ + w + "\""@, 0) == Ok::<(EntrySpec, int), crate::glossary::Failure>(
            ((lowercase(w), None), ("\""@ + w + "\""@).len() as int),
        ),
        entry("{ name = \""@ + w + "\"; }"@, 0) == Ok::<(EntrySpec, int), crate::glossary::Failure>(
            ((lowercase(w), None), ("{ name = \""@ + w + "\"; }"@).len() as int),
        ),
{
    lemma_bare_entry(w);
    lemma_named_entry(w);
}

} // verus!
