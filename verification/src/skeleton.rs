//! The glossary skeleton: every out-of-vocabulary word of the checked documents, as a
//! `docs/glossary.nix` for the human to delete from. Deliberately unfiltered: the in-code signal
//! is too weak to decide with, so it is only written beside each word.
use vstd::prelude::*;
use crate::strmap::StrMap;
use crate::text::{seq_less, lemma_seq_less_irreflexive, lemma_seq_less_transitive, lemma_seq_less_total, str_less, byte_len, lemma_byte_len_mono, char_utf8_len, chars_of, decimal, push_decimal, push_str, string_from};
use crate::upos::Upos;
use crate::glossary::{parse_glossary, extend, Terms, Failure};
use crate::readback::{plain, declared, all_plain, skeleton_reads_back};

verus! {

// ---------------------------------------------------------------------------------------------
// The order of words.
// ---------------------------------------------------------------------------------------------

/// A word with its number of occurrences.
pub type Ranked = (Seq<char>, nat);

/// The more frequent word first, and of two as frequent the one first in `str` order.
pub open spec fn ranks_before(a: Ranked, b: Ranked) -> bool {
    a.1 > b.1 || (a.1 == b.1 && seq_less(a.0, b.0))
}

proof fn lemma_ranks_before_transitive(a: Ranked, b: Ranked, c: Ranked)
    requires
        ranks_before(a, b),
        ranks_before(b, c),
    ensures
        ranks_before(a, c),
{
    if a.1 == b.1 && b.1 == c.1 {
        lemma_seq_less_transitive(a.0, b.0, c.0);
    }
}

proof fn lemma_ranks_before_total(a: Ranked, b: Ranked)
    requires
        a.0 != b.0,
    ensures
        ranks_before(a, b) || ranks_before(b, a),
{
    if a.1 == b.1 {
        lemma_seq_less_total(a.0, b.0);
    }
}

proof fn lemma_ranks_before_irreflexive(a: Ranked)
    ensures
        !ranks_before(a, a),
{
    lemma_seq_less_irreflexive(a.0);
}

pub open spec fn sorted(r: Seq<Ranked>) -> bool {
    forall|i: int, j: int| 0 <= i < j < r.len() ==> ranks_before(#[trigger] r[i], #[trigger] r[j])
}

// ---------------------------------------------------------------------------------------------
// What is counted.
// ---------------------------------------------------------------------------------------------

/// An out-of-vocabulary word as the checker found it: the word and the part of speech it was
/// used in.
pub type Found = (Seq<char>, Upos);

pub open spec fn found_view(u: Seq<(String, Upos)>) -> Seq<Found> {
    u.map_values(|e: (String, Upos)| (e.0@, e.1))
}

pub open spec fn ranked_view(r: Seq<(String, usize)>) -> Seq<Ranked> {
    r.map_values(|e: (String, usize)| (e.0@, e.1 as nat))
}

/// Whether an occurrence counts toward `w` in the list of verbs (`verbs`) or of names.
pub open spec fn counts_toward(e: Found, verbs: bool, w: Seq<char>) -> bool {
    e.0 == w && (e.1 == Upos::VERB) == verbs
}

/// How often `w` was found as a verb (`verbs`) or as anything else.
pub open spec fn occurrences(u: Seq<Found>, verbs: bool, w: Seq<char>) -> nat
    decreases u.len(),
{
    if u.len() == 0 {
        0
    } else {
        occurrences(u.drop_last(), verbs, w) + if counts_toward(u.last(), verbs, w) { 1nat } else { 0nat }
    }
}

proof fn lemma_occurrences_bound(u: Seq<Found>, verbs: bool, w: Seq<char>)
    ensures
        occurrences(u, verbs, w) <= u.len(),
        occurrences(u, verbs, w) > 0 ==> exists|i: int| 0 <= i < u.len() && #[trigger] u[i].0 == w,
    decreases u.len(),
{
    if u.len() > 0 {
        lemma_occurrences_bound(u.drop_last(), verbs, w);
        if occurrences(u.drop_last(), verbs, w) > 0 {
            let i = choose|i: int| 0 <= i < u.drop_last().len() && #[trigger] u.drop_last()[i].0 == w;
            assert(u[i].0 == w);
        }
    }
}

/// `r` lists each word found as a verb (`verbs`), or as anything else, once, with its number of
/// occurrences, the more frequent first and words as frequent in `str` order.
pub open spec fn is_ranking(u: Seq<Found>, verbs: bool, r: Seq<Ranked>) -> bool {
    &&& forall|i: int| 0 <= i < r.len() ==> #[trigger] r[i].1 == occurrences(u, verbs, r[i].0) && r[i].1 > 0
    &&& forall|w: Seq<char>| #[trigger] occurrences(u, verbs, w) > 0 ==> exists|i: int| 0 <= i < r.len() && #[trigger] r[i].0 == w
    &&& sorted(r)
}

/// The ranking of the words found as verbs (`verbs`), or as anything else.
pub open spec fn ranking(u: Seq<Found>, verbs: bool) -> Seq<Ranked> {
    choose|r: Seq<Ranked>| is_ranking(u, verbs, r)
}

proof fn lemma_sorted_unique(r1: Seq<Ranked>, r2: Seq<Ranked>)
    requires
        sorted(r1),
        sorted(r2),
        forall|x: Ranked| r1.contains(x) <==> r2.contains(x),
    ensures
        r1 == r2,
    decreases r1.len(),
{
    if r1.len() == 0 {
        if r2.len() > 0 {
            assert(r2.contains(r2[0]));
        }
        assert(r1 =~= r2);
    } else {
        assert(r1.contains(r1[0]));
        let j = choose|j: int| 0 <= j < r2.len() && r2[j] == r1[0];
        assert(r2.contains(r2[0]));
        let i = choose|i: int| 0 <= i < r1.len() && r1[i] == r2[0];
        if i > 0 && j > 0 {
            assert(ranks_before(r1[0], r1[i]));
            assert(ranks_before(r2[0], r2[j]));
            lemma_ranks_before_transitive(r1[0], r2[0], r1[0]);
            lemma_ranks_before_irreflexive(r1[0]);
        }
        assert(r1[0] == r2[0]);
        let a = r1[0];
        let t1 = r1.drop_first();
        let t2 = r2.drop_first();
        assert forall|x: Ranked| t1.contains(x) <==> t2.contains(x) by {
            if t1.contains(x) {
                let k = choose|k: int| 0 <= k < t1.len() && t1[k] == x;
                assert(r1[k + 1] == x);
                assert(ranks_before(r1[0], r1[k + 1]));
                lemma_ranks_before_irreflexive(a);
                assert(r1.contains(x));
                let m = choose|m: int| 0 <= m < r2.len() && r2[m] == x;
                assert(m != 0);
                assert(t2[m - 1] == x);
            }
            if t2.contains(x) {
                let k = choose|k: int| 0 <= k < t2.len() && t2[k] == x;
                assert(r2[k + 1] == x);
                assert(ranks_before(r2[0], r2[k + 1]));
                lemma_ranks_before_irreflexive(a);
                assert(r2.contains(x));
                let m = choose|m: int| 0 <= m < r1.len() && r1[m] == x;
                assert(m != 0);
                assert(t1[m - 1] == x);
            }
        }
        assert(sorted(t1)) by {
            assert forall|p: int, q: int| 0 <= p < q < t1.len() implies ranks_before(#[trigger] t1[p], #[trigger] t1[q]) by {
                assert(ranks_before(r1[p + 1], r1[q + 1]));
            }
        }
        assert(sorted(t2)) by {
            assert forall|p: int, q: int| 0 <= p < q < t2.len() implies ranks_before(#[trigger] t2[p], #[trigger] t2[q]) by {
                assert(ranks_before(r2[p + 1], r2[q + 1]));
            }
        }
        lemma_sorted_unique(t1, t2);
        assert(r1 =~= r2) by {
            assert forall|k: int| 0 <= k < r1.len() implies r1[k] == r2[k] by {
                if k > 0 {
                    assert(r1[k] == t1[k - 1]);
                    assert(r2[k] == t2[k - 1]);
                }
            }
        }
    }
}

/// There is one ranking of what was found: it is the one `ranking` names.
pub proof fn ranking_is_unique(u: Seq<Found>, verbs: bool, r: Seq<Ranked>)
    requires
        is_ranking(u, verbs, r),
    ensures
        ranking(u, verbs) == r,
{
    let c = ranking(u, verbs);
    assert(is_ranking(u, verbs, c));
    assert forall|x: Ranked| r.contains(x) <==> c.contains(x) by {
        if r.contains(x) {
            let i = choose|i: int| 0 <= i < r.len() && r[i] == x;
            assert(r[i].1 == occurrences(u, verbs, r[i].0));
            let j = choose|j: int| 0 <= j < c.len() && #[trigger] c[j].0 == x.0;
            assert(c[j].1 == occurrences(u, verbs, c[j].0));
            assert(c[j] == x);
        }
        if c.contains(x) {
            let i = choose|i: int| 0 <= i < c.len() && c[i] == x;
            assert(c[i].1 == occurrences(u, verbs, c[i].0));
            let j = choose|j: int| 0 <= j < r.len() && #[trigger] r[j].0 == x.0;
            assert(r[j].1 == occurrences(u, verbs, r[j].0));
            assert(r[j] == x);
        }
    }
    lemma_sorted_unique(r, c);
}

// ---------------------------------------------------------------------------------------------
// Counting and ranking.
// ---------------------------------------------------------------------------------------------

/// How often each word was found as a verb (`verbs`), or as anything else.
fn tally(found: &Vec<(String, Upos)>, verbs: bool) -> (counts: StrMap<usize>)
    ensures
        forall|w: Seq<char>| #[trigger] counts@.contains_key(w) <==> occurrences(found_view(found@), verbs, w) > 0,
        forall|w: Seq<char>| counts@.contains_key(w) ==> #[trigger] counts@[w] == occurrences(found_view(found@), verbs, w),
{
    let ghost u = found_view(found@);
    let mut counts: StrMap<usize> = StrMap::new();
    let mut k: usize = 0;
    while k < found.len()
        invariant
            k <= found@.len(),
            u == found_view(found@),
            forall|w: Seq<char>| #[trigger] counts@.contains_key(w) <==> occurrences(u.take(k as int), verbs, w) > 0,
            forall|w: Seq<char>| counts@.contains_key(w) ==> #[trigger] counts@[w] == occurrences(u.take(k as int), verbs, w),
        decreases found@.len() - k,
    {
        let e = &found[k];
        let ghost w = e.0@;
        assert(u.take(k + 1).drop_last() =~= u.take(k as int));
        assert(u.take(k + 1).last() == u[k as int]);
        assert(u[k as int] == (e.0@, e.1));
        if matches!(e.1, Upos::VERB) == verbs {
            let n: usize = match counts.get(e.0.as_str()) {
                Some(c) => {
                    proof {
                        lemma_occurrences_bound(u.take(k as int), verbs, w);
                    }
                    *c + 1
                },
                None => 1,
            };
            counts.insert(e.0.clone(), n);
        }
        k = k + 1;
    }
    assert(u.take(found@.len() as int) =~= u);
    counts
}

/// Whether `(word, n)` ranks before `b`.
fn ahead(word: &str, n: usize, b: &(String, usize)) -> (r: bool)
    ensures
        r == ranks_before((word@, n as nat), (b.0@, b.1 as nat)),
{
    n > b.1 || (n == b.1 && str_less(word, b.0.as_str()))
}

/// The words found as verbs (`verbs`), or as anything else, each once with its number of
/// occurrences: the more frequent first, and words as frequent in `str` order.
pub fn rank(found: &Vec<(String, Upos)>, verbs: bool) -> (r: Vec<(String, usize)>)
    ensures
        is_ranking(found_view(found@), verbs, ranked_view(r@)),
        ranked_view(r@) == ranking(found_view(found@), verbs),
{
    let ghost u = found_view(found@);
    let counts = tally(found, verbs);
    let keys = counts.keys();
    let mut r: Vec<(String, usize)> = Vec::new();
    let mut i: usize = 0;
    while i < keys.len()
        invariant
            i <= keys@.len(),
            u == found_view(found@),
            forall|w: Seq<char>| #[trigger] counts@.contains_key(w) <==> occurrences(u, verbs, w) > 0,
            forall|w: Seq<char>| counts@.contains_key(w) ==> #[trigger] counts@[w] == occurrences(u, verbs, w),
            forall|k: Seq<char>| counts@.contains_key(k) <==> exists|m: int| 0 <= m < keys@.len() && #[trigger] keys@[m]@ == k,
            forall|a: int, b: int| 0 <= a < keys@.len() && 0 <= b < keys@.len() && a != b ==> (#[trigger] keys@[a])@ != (#[trigger] keys@[b])@,
            sorted(ranked_view(r@)),
            forall|j: int| 0 <= j < r@.len() ==> (#[trigger] r@[j]).1 == occurrences(u, verbs, r@[j].0@) && r@[j].1 > 0,
            forall|j: int| 0 <= j < r@.len() ==> exists|m: int| 0 <= m < i && #[trigger] keys@[m]@ == (#[trigger] r@[j]).0@,
            forall|m: int| 0 <= m < i ==> exists|j: int| 0 <= j < r@.len() && #[trigger] r@[j].0@ == (#[trigger] keys@[m])@,
        decreases keys@.len() - i,
    {
        let key = &keys[i];
        assert(counts@.contains_key(key@));
        let n: usize = match counts.get(key.as_str()) {
            Some(c) => *c,
            None => 0,
        };
        let ghost x: Ranked = (key@, n as nat);
        let ghost rv = ranked_view(r@);
        assert forall|j: int| 0 <= j < rv.len() implies rv[j].0 != x.0 by {
            let m = choose|m: int| 0 <= m < i && #[trigger] keys@[m]@ == (#[trigger] r@[j]).0@;
            assert(keys@[m]@ != keys@[i as int]@);
        }
        let mut p: usize = 0;
        while p < r.len() && !ahead(key.as_str(), n, &r[p])
            invariant
                p <= r@.len(),
                rv == ranked_view(r@),
                x == (key@, n as nat),
                forall|j: int| 0 <= j < p ==> ranks_before(#[trigger] rv[j], x),
                forall|j: int| 0 <= j < rv.len() ==> rv[j].0 != x.0,
            decreases r@.len() - p,
        {
            proof {
                lemma_ranks_before_total(rv[p as int], x);
            }
            p = p + 1;
        }
        assert forall|j: int| p <= j < rv.len() implies ranks_before(x, #[trigger] rv[j]) by {
            if j > p {
                assert(ranks_before(rv[p as int], rv[j]));
                lemma_ranks_before_transitive(x, rv[p as int], rv[j]);
            }
        }
        let ghost old_r = r@;
        let item = (key.clone(), n);
        let ghost it = item;
        r.insert(p, item);
        proof {
            old_r.insert_ensures(p as int, it);
            let nv = ranked_view(r@);
            assert forall|a: int, b: int| 0 <= a < b < nv.len() implies ranks_before(#[trigger] nv[a], #[trigger] nv[b]) by {
                if b < p {
                    assert(nv[a] == rv[a] && nv[b] == rv[b]);
                } else if b == p {
                    assert(nv[a] == rv[a]);
                } else if a < p {
                    assert(nv[a] == rv[a] && nv[b] == rv[b - 1]);
                    lemma_ranks_before_transitive(rv[a], x, rv[b - 1]);
                } else if a == p {
                    assert(nv[b] == rv[b - 1]);
                } else {
                    assert(nv[a] == rv[a - 1] && nv[b] == rv[b - 1]);
                }
            }
            assert forall|j: int| 0 <= j < r@.len() implies exists|m: int| 0 <= m < i + 1 && #[trigger] keys@[m]@ == (#[trigger] r@[j]).0@ by {
                if j < p {
                    assert(r@[j] == old_r[j]);
                    let m = choose|m: int| 0 <= m < i && #[trigger] keys@[m]@ == (#[trigger] old_r[j]).0@;
                    assert(keys@[m]@ == r@[j].0@);
                } else if j == p {
                    assert(keys@[i as int]@ == r@[j].0@);
                } else {
                    assert(r@[j] == old_r[j - 1]);
                    let m = choose|m: int| 0 <= m < i && #[trigger] keys@[m]@ == (#[trigger] old_r[j - 1]).0@;
                    assert(keys@[m]@ == r@[j].0@);
                }
            }
            assert forall|m: int| 0 <= m < i + 1 implies exists|j: int| 0 <= j < r@.len() && #[trigger] r@[j].0@ == (#[trigger] keys@[m])@ by {
                if m == i {
                    assert(r@[p as int].0@ == keys@[m]@);
                } else {
                    let j = choose|j: int| 0 <= j < old_r.len() && #[trigger] old_r[j].0@ == (#[trigger] keys@[m])@;
                    if j < p {
                        assert(r@[j] == old_r[j]);
                    } else {
                        assert(r@[j + 1] == old_r[j]);
                    }
                }
            }
            assert forall|j: int| 0 <= j < r@.len() implies (#[trigger] r@[j]).1 == occurrences(u, verbs, r@[j].0@) && r@[j].1 > 0 by {
                if j < p {
                    assert(r@[j] == old_r[j]);
                } else if j > p {
                    assert(r@[j] == old_r[j - 1]);
                }
            }
        }
        i = i + 1;
    }
    proof {
        let rv = ranked_view(r@);
        assert forall|w: Seq<char>| #[trigger] occurrences(u, verbs, w) > 0 implies exists|j: int| 0 <= j < rv.len() && #[trigger] rv[j].0 == w by {
            assert(counts@.contains_key(w));
            let m = choose|m: int| 0 <= m < keys@.len() && #[trigger] keys@[m]@ == w;
            let j = choose|j: int| 0 <= j < r@.len() && #[trigger] r@[j].0@ == (#[trigger] keys@[m])@;
            assert(rv[j].0 == w);
        }
        assert forall|j: int| 0 <= j < rv.len() implies #[trigger] rv[j].1 == occurrences(u, verbs, rv[j].0) && rv[j].1 > 0 by {
            assert(r@[j].1 == occurrences(u, verbs, r@[j].0@));
        }
        ranking_is_unique(u, verbs, rv);
    }
    r
}

} // verus!


verus! {

// ---------------------------------------------------------------------------------------------
// The text.
// ---------------------------------------------------------------------------------------------

/// The comment at the top of a skeleton.
pub open spec fn header() -> Seq<char> {
    "# Written by `ste_checker --suggest-glossary`. Every word below is absent from the\n"@
        + "# ASD-STE100 approved vocabulary. Delete the ones that are ordinary English — only\n"@
        + "# Technical Names and Technical Verbs belong here — and define the ones you keep.\n"@
}

pub open spec fn spaces(n: nat) -> Seq<char> {
    Seq::new(n, |k: int| ' ')
}

/// The spaces that pad an entry for `w` to the width of the widest word, which is counted in
/// bytes while the padding counts characters.
pub open spec fn padding(w: Seq<char>, width: nat) -> nat {
    if width > w.len() {
        (width - w.len()) as nat
    } else {
        0
    }
}

/// The line of one word: its entry, padded, and a comment with its number of occurrences and
/// whether it also occurs in code.
pub open spec fn entry_line(w: Seq<char>, n: nat, width: nat, in_code: bool) -> Seq<char> {
    "    { name = \""@ + w + "\"; desc = \"\"; }"@ + spaces(padding(w, width)) + "  # "@ + decimal(n)
        + (if in_code { ", in code"@ } else { Seq::empty() }) + "\n"@
}

pub open spec fn entry_lines(r: Seq<Ranked>, width: nat, codes: Set<Seq<char>>) -> Seq<char>
    decreases r.len(),
{
    if r.len() == 0 {
        Seq::empty()
    } else {
        entry_lines(r.drop_last(), width, codes) + entry_line(r.last().0, r.last().1, width, codes.contains(r.last().0))
    }
}

/// The number of bytes of the longest word.
pub open spec fn widest(r: Seq<Ranked>) -> nat
    decreases r.len(),
{
    if r.len() == 0 {
        0
    } else if byte_len(r.last().0) > widest(r.drop_last()) {
        byte_len(r.last().0)
    } else {
        widest(r.drop_last())
    }
}

pub open spec fn section(list: Seq<char>, r: Seq<Ranked>, codes: Set<Seq<char>>) -> Seq<char> {
    "  "@ + list + " = [\n"@ + entry_lines(r, widest(r), codes) + "  ];\n"@
}

/// A glossary with the ranked names `rn` and verbs `rv`, each marked where it occurs in code
/// (`codes`).
pub open spec fn skeleton_text(rn: Seq<Ranked>, rv: Seq<Ranked>, codes: Set<Seq<char>>) -> Seq<char> {
    header() + "{\n"@ + section("names"@, rn, codes) + section("verbs"@, rv, codes) + "}\n"@
}

fn push_spaces(out: &mut Vec<char>, n: usize)
    ensures
        final(out)@ == old(out)@ + spaces(n as nat),
{
    let ghost start = out@;
    let mut k: usize = 0;
    while k < n
        invariant
            k <= n,
            out@ == start + spaces(k as nat),
        decreases n - k,
    {
        out.push(' ');
        k = k + 1;
        assert(out@ =~= start + spaces(k as nat));
    }
}

/// The number of bytes of `cs` in UTF-8.
fn byte_count(cs: &Vec<char>) -> (n: usize)
    requires
        byte_len(cs@) <= usize::MAX,
    ensures
        n == byte_len(cs@),
{
    let mut n: usize = 0;
    let mut k: usize = 0;
    while k < cs.len()
        invariant
            k <= cs@.len(),
            byte_len(cs@) <= usize::MAX,
            n == byte_len(cs@.take(k as int)),
        decreases cs@.len() - k,
    {
        proof {
            lemma_byte_len_mono(cs@, k + 1, cs@.len() as int);
            assert(cs@.take(cs@.len() as int) =~= cs@);
            assert(cs@.take(k + 1).drop_last() =~= cs@.take(k as int));
        }
        n = n + char_utf8_len(cs[k]);
        k = k + 1;
    }
    assert(cs@.take(cs@.len() as int) =~= cs@);
    n
}

fn push_section(out: &mut Vec<char>, list: &str, r: &Vec<(String, usize)>, in_code: &StrMap<()>)
    requires
        forall|j: int| 0 <= j < r@.len() ==> byte_len((#[trigger] r@[j]).0@) <= usize::MAX,
    ensures
        final(out)@ == old(out)@ + section(list@, ranked_view(r@), in_code@.dom()),
{
    let ghost rv = ranked_view(r@);
    let ghost codes = in_code@.dom();
    let mut width: usize = 0;
    let mut j: usize = 0;
    while j < r.len()
        invariant
            j <= r@.len(),
            rv == ranked_view(r@),
            forall|m: int| 0 <= m < r@.len() ==> byte_len((#[trigger] r@[m]).0@) <= usize::MAX,
            width == widest(rv.take(j as int)),
        decreases r@.len() - j,
    {
        let cs = chars_of(r[j].0.as_str());
        let b = byte_count(&cs);
        assert(rv.take(j + 1).drop_last() =~= rv.take(j as int));
        if b > width {
            width = b;
        }
        j = j + 1;
    }
    assert(rv.take(r@.len() as int) =~= rv);
    let ghost start = out@;
    push_str(out, "  ");
    push_str(out, list);
    push_str(out, " = [\n");
    let ghost head = out@;
    assert(head == start + "  "@ + list@ + " = [\n"@);
    let mut j: usize = 0;
    assert(entry_lines(rv.take(0), width as nat, codes) =~= Seq::<char>::empty());
    assert(out@ =~= head + entry_lines(rv.take(0), width as nat, codes));
    while j < r.len()
        invariant
            j <= r@.len(),
            rv == ranked_view(r@),
            codes == in_code@.dom(),
            out@ == head + entry_lines(rv.take(j as int), width as nat, codes),
        decreases r@.len() - j,
    {
        let word = &r[j].0;
        let n = r[j].1;
        let ghost before = out@;
        push_str(out, "    { name = \"");
        push_str(out, word.as_str());
        push_str(out, "\"; desc = \"\"; }");
        let len = word.as_str().unicode_len();
        let pad: usize = if width > len { width - len } else { 0 };
        push_spaces(out, pad);
        push_str(out, "  # ");
        push_decimal(out, n);
        let coded = in_code.contains_key(word.as_str());
        if coded {
            push_str(out, ", in code");
        }
        push_str(out, "\n");
        proof {
            let line = entry_line(word@, n as nat, width as nat, coded);
            assert(out@ =~= before + line);
            assert(rv.take(j + 1).drop_last() =~= rv.take(j as int));
            assert(rv.take(j + 1).last() == (word@, n as nat));
        }
        j = j + 1;
    }
    assert(rv.take(r@.len() as int) =~= rv);
    push_str(out, "  ];\n");
}

proof fn lemma_ranked_words_plain(found: Seq<(String, Upos)>, verbs: bool, r: Seq<Ranked>)
    requires
        is_ranking(found_view(found), verbs, r),
        forall|i: int| 0 <= i < found.len() ==> plain((#[trigger] found[i]).0@),
    ensures
        all_plain(r),
{
    let u = found_view(found);
    assert forall|j: int| 0 <= j < r.len() implies plain(#[trigger] r[j].0) by {
        assert(r[j].1 > 0 && r[j].1 == occurrences(u, verbs, r[j].0));
        lemma_occurrences_bound(u, verbs, r[j].0);
        assert(u.len() == found.len());
        let i = choose|i: int| 0 <= i < u.len() && #[trigger] u[i].0 == r[j].0;
        assert(found[i].0@ == u[i].0);
    }
}

/// A `docs/glossary.nix` that declares every word found, names and verbs apart, for the human to
/// delete the ordinary English from and define the rest. `in_code` holds the identifiers that
/// occur in code.
pub fn skeleton(found: &Vec<(String, Upos)>, in_code: &StrMap<()>) -> (s: String)
    requires
        forall|i: int| 0 <= i < found@.len() ==> byte_len((#[trigger] found@[i]).0@) <= usize::MAX,
    ensures
        s@ == skeleton_text(ranking(found_view(found@), false), ranking(found_view(found@), true), in_code@.dom()),
        (forall|i: int| 0 <= i < found@.len() ==> plain((#[trigger] found@[i]).0@)) ==> parse_glossary(s@) == Ok::<
            (Terms, Terms),
            Failure,
        >(
            (
                extend(Terms::empty(), declared(ranking(found_view(found@), false))),
                extend(Terms::empty(), declared(ranking(found_view(found@), true))),
            ),
        ),
{
    let ghost u = found_view(found@);
    let names = rank(found, false);
    let verbs = rank(found, true);
    assert forall|j: int| 0 <= j < names@.len() implies byte_len((#[trigger] names@[j]).0@) <= usize::MAX by {
        let rv = ranked_view(names@);
        assert(rv[j].1 > 0 && rv[j].1 == occurrences(u, false, rv[j].0));
        lemma_occurrences_bound(u, false, rv[j].0);
        let i = choose|i: int| 0 <= i < u.len() && #[trigger] u[i].0 == rv[j].0;
        assert(found@[i].0@ == u[i].0);
    }
    assert forall|j: int| 0 <= j < verbs@.len() implies byte_len((#[trigger] verbs@[j]).0@) <= usize::MAX by {
        let rv = ranked_view(verbs@);
        assert(rv[j].1 > 0 && rv[j].1 == occurrences(u, true, rv[j].0));
        lemma_occurrences_bound(u, true, rv[j].0);
        let i = choose|i: int| 0 <= i < u.len() && #[trigger] u[i].0 == rv[j].0;
        assert(found@[i].0@ == u[i].0);
    }
    let mut out: Vec<char> = Vec::new();
    push_str(&mut out, "# Written by `ste_checker --suggest-glossary`. Every word below is absent from the\n");
    push_str(&mut out, "# ASD-STE100 approved vocabulary. Delete the ones that are ordinary English — only\n");
    push_str(&mut out, "# Technical Names and Technical Verbs belong here — and define the ones you keep.\n");
    push_str(&mut out, "{\n");
    push_section(&mut out, "names", &names, in_code);
    push_section(&mut out, "verbs", &verbs, in_code);
    push_str(&mut out, "}\n");
    assert(out@ =~= skeleton_text(ranked_view(names@), ranked_view(verbs@), in_code@.dom()));
    proof {
        if forall|i: int| 0 <= i < found@.len() ==> plain((#[trigger] found@[i]).0@) {
            lemma_ranked_words_plain(found@, false, ranked_view(names@));
            lemma_ranked_words_plain(found@, true, ranked_view(verbs@));
            skeleton_reads_back(ranked_view(names@), ranked_view(verbs@), in_code@.dom());
        }
    }
    string_from(&out)
}

} // verus!
