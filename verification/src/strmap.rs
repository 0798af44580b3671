//! A map keyed by strings, held in key order.
use vstd::prelude::*;
use crate::text::{str_eq, str_less, seq_less, lemma_seq_less_irreflexive, lemma_seq_less_transitive, lemma_seq_less_total};

verus! {

pub open spec fn opt_view(o: Option<String>) -> Option<Seq<char>> {
    match o {
        Some(s) => Some(s@),
        None => None,
    }
}

/// A map keyed by strings. At most one entry per key; the entries are kept in the order of
/// their keys, so two maps with the same contents are equal entry for entry.
#[derive(Debug, PartialEq, Eq)]
pub struct StrMap<V> {
    entries: Vec<(String, V)>,
}

impl<V> StrMap<V> {
    pub closed spec fn key(self, i: int) -> Seq<char> {
        self.entries@[i].0@
    }

    /// The entries in the order the map holds them: the order of their keys.
    pub closed spec fn pairs(self) -> Seq<(String, V)> {
        self.entries@
    }

    pub closed spec fn has_key_at(self, k: Seq<char>) -> bool {
        exists|i: int| 0 <= i < self.entries@.len() && #[trigger] self.key(i) == k
    }

    closed spec fn unique_keys(self) -> bool {
        forall|i: int, j: int|
            0 <= i < self.entries@.len() && 0 <= j < self.entries@.len() && i != j
                ==> #[trigger] self.key(i) != #[trigger] self.key(j)
    }

    closed spec fn ordered(self) -> bool {
        forall|i: int, j: int| 0 <= i < j < self.entries@.len() ==> seq_less(#[trigger] self.key(i), #[trigger] self.key(j))
    }

    /// One entry per key, in the order of the keys.
    #[verifier::type_invariant]
    closed spec fn well_formed(self) -> bool {
        self.unique_keys() && self.ordered()
    }

    /// The entry at `i` is what the map holds for its term.
    proof fn lemma_entry(self, i: int)
        requires
            self.unique_keys(),
            0 <= i < self.entries@.len(),
        ensures
            self@.contains_key(self.key(i)),
            self@[self.key(i)] == self.entries@[i].1,
    {
        let k = self.key(i);
        assert(self.has_key_at(k));
        let j = choose|j: int| 0 <= j < self.entries@.len() && #[trigger] self.key(j) == k;
        assert(j == i);
    }

    pub fn new() -> (m: Self)
        ensures
            m@ == Map::<Seq<char>, V>::empty(),
    {
        let m = StrMap { entries: Vec::new() };
        assert(m@ =~= Map::<Seq<char>, V>::empty());
        m
    }

    pub fn len(&self) -> (n: usize)
        ensures
            n == self@.len(),
    {
        proof {
            use_type_invariant(self);
            self.lemma_len();
        }
        self.entries.len()
    }

    proof fn lemma_len(self)
        requires
            self.unique_keys(),
        ensures
            self@.dom().finite(),
            self@.len() == self.entries@.len(),
    {
        let keys = Seq::new(self.entries@.len(), |i: int| self.key(i));
        assert(keys.no_duplicates());
        keys.unique_seq_to_set();
        assert(keys.to_set() =~= self@.dom()) by {
            assert forall|k: Seq<char>| #[trigger] self@.dom().contains(k) implies keys.to_set().contains(k) by {
                let i = choose|i: int| 0 <= i < self.entries@.len() && #[trigger] self.key(i) == k;
                assert(keys[i] == k);
            }
        }
    }

    pub fn contains_key(&self, key: &str) -> (b: bool)
        ensures
            b == self@.contains_key(key@),
    {
        self.find(key).is_some()
    }

    pub fn get(&self, key: &str) -> (r: Option<&V>)
        ensures
            r matches Some(v) ==> self@.contains_key(key@) && self@[key@] == *v,
            r is None ==> !self@.contains_key(key@),
    {
        proof {
            use_type_invariant(self);
        }
        match self.find(key) {
            Some(i) => {
                proof {
                    self.lemma_entry(i as int);
                }
                Some(&self.entries[i].1)
            },
            None => None,
        }
    }

    /// The terms, in order, each once.
    pub fn keys(&self) -> (ks: Vec<String>)
        ensures
            ks@.len() == self@.len(),
            forall|k: Seq<char>| self@.contains_key(k) <==> exists|i: int| 0 <= i < ks@.len() && #[trigger] ks@[i]@ == k,
            forall|i: int, j: int| 0 <= i < ks@.len() && 0 <= j < ks@.len() && i != j ==> (#[trigger] ks@[i])@ != (#[trigger] ks@[j])@,
    {
        proof {
            use_type_invariant(self);
            self.lemma_len();
        }
        let mut ks: Vec<String> = Vec::new();
        let mut i: usize = 0;
        while i < self.entries.len()
            invariant
                i <= self.entries@.len(),
                ks@.len() == i,
                forall|j: int| 0 <= j < i ==> (#[trigger] ks@[j])@ == self.key(j),
            decreases self.entries@.len() - i,
        {
            ks.push(self.entries[i].0.clone());
            i = i + 1;
        }
        assert forall|k: Seq<char>| self@.contains_key(k) <==> exists|i: int| 0 <= i < ks@.len() && #[trigger] ks@[i]@ == k by {
            if self@.contains_key(k) {
                let i = choose|i: int| 0 <= i < self.entries@.len() && #[trigger] self.key(i) == k;
                assert(ks@[i]@ == k);
            }
            if exists|i: int| 0 <= i < ks@.len() && #[trigger] ks@[i]@ == k {
                let i = choose|i: int| 0 <= i < ks@.len() && #[trigger] ks@[i]@ == k;
                assert(self.key(i) == k);
            }
        }
        ks
    }

    /// The entries, in the order of their terms.
    pub fn entries(&self) -> (es: &Vec<(String, V)>)
        ensures
            es@ == self.pairs(),
            es@.len() == self@.len(),
            forall|i: int| 0 <= i < es@.len() ==> self@.contains_key((#[trigger] es@[i]).0@) && self@[es@[i].0@] == es@[i].1,
    {
        proof {
            use_type_invariant(self);
            self.lemma_len();
            assert forall|i: int| 0 <= i < self.entries@.len() implies self@.contains_key((#[trigger] self.entries@[i]).0@) && self@[self.entries@[i].0@] == self.entries@[i].1 by {
                self.lemma_entry(i);
            }
        }
        &self.entries
    }

    pub fn insert(&mut self, key: String, value: V)
        ensures
            final(self)@ == old(self)@.insert(key@, value),
    {
        proof {
            use_type_invariant(&*self);
        }
        let ghost old_map = self@;
        let ghost k = key@;
        let ghost v = value;
        match self.find(key.as_str()) {
            Some(i) => {
                let ghost before = *self;
                let mut entries: Vec<(String, V)> = Vec::new();
                std::mem::swap(&mut entries, &mut self.entries);
                entries.set(i, (key, value));
                assert forall|a: int, b: int|
                    0 <= a < entries@.len() && 0 <= b < entries@.len() && a != b implies
                        #[trigger] entries@[a].0@ != #[trigger] entries@[b].0@ by {
                    assert(before.key(a) != before.key(b));
                }
                assert forall|a: int, b: int| 0 <= a < b < entries@.len() implies seq_less(
                    #[trigger] entries@[a].0@,
                    #[trigger] entries@[b].0@,
                ) by {
                    assert(entries@[a].0@ == before.key(a));
                    assert(entries@[b].0@ == before.key(b));
                }
                self.entries = entries;
                proof {
                    assert(before.key(i as int) == k);
                    assert(self.key(i as int) == k);
                    assert forall|q: Seq<char>| self.has_key_at(q) == (before.has_key_at(q)) by {
                        if self.has_key_at(q) {
                            let j = choose|j: int| 0 <= j < self.entries@.len() && #[trigger] self.key(j) == q;
                            assert(before.key(j) == q);
                        }
                        if before.has_key_at(q) {
                            let j = choose|j: int| 0 <= j < before.entries@.len() && #[trigger] before.key(j) == q;
                            assert(self.key(j) == q);
                        }
                    }
                    assert forall|q: Seq<char>| #[trigger] self@.contains_key(q) implies self@[q] == old_map.insert(k, v)[q] by {
                        let j = choose|j: int| 0 <= j < self.entries@.len() && #[trigger] self.key(j) == q;
                        self.lemma_entry(j);
                        if j != i {
                            before.lemma_entry(j);
                        }
                    }
                    assert(self@ =~= old_map.insert(k, v));
                }
            },
            None => {
                let (_, pos) = self.locate(key.as_str());
                let ghost before = *self;
                let mut entries: Vec<(String, V)> = Vec::new();
                std::mem::swap(&mut entries, &mut self.entries);
                entries.insert(pos, (key, value));
                assert forall|a: int, b: int|
                    0 <= a < entries@.len() && 0 <= b < entries@.len() && a != b implies
                        #[trigger] entries@[a].0@ != #[trigger] entries@[b].0@ by {
                    let ea = if a < pos { a } else { a - 1 };
                    let eb = if b < pos { b } else { b - 1 };
                    if a != pos as int && b != pos as int {
                        assert(before.key(ea) != before.key(eb));
                    } else if a == pos as int {
                        assert(before.key(eb) == entries@[b].0@);
                        assert(!before.has_key_at(k));
                    } else {
                        assert(before.key(ea) == entries@[a].0@);
                        assert(!before.has_key_at(k));
                    }
                }
                assert forall|a: int, b: int| 0 <= a < b < entries@.len() implies seq_less(
                    #[trigger] entries@[a].0@,
                    #[trigger] entries@[b].0@,
                ) by {
                    if b < pos {
                        assert(seq_less(before.key(a), before.key(b)));
                    } else if b == pos as int {
                        assert(seq_less(before.key(a), k));
                    } else if a < pos {
                        assert(seq_less(before.key(a), k));
                        assert(seq_less(k, before.key(b - 1)));
                        lemma_seq_less_transitive(before.key(a), k, before.key(b - 1));
                    } else if a == pos as int {
                        assert(seq_less(k, before.key(b - 1)));
                    } else {
                        assert(seq_less(before.key(a - 1), before.key(b - 1)));
                    }
                }
                self.entries = entries;
                proof {
                    assert forall|q: Seq<char>| self.has_key_at(q) == (before.has_key_at(q) || q == k) by {
                        if self.has_key_at(q) {
                            let j = choose|j: int| 0 <= j < self.entries@.len() && #[trigger] self.key(j) == q;
                            if j < pos {
                                assert(before.key(j) == q);
                            } else if j > pos {
                                assert(before.key(j - 1) == q);
                            }
                        }
                        if before.has_key_at(q) {
                            let j = choose|j: int| 0 <= j < before.entries@.len() && #[trigger] before.key(j) == q;
                            if j < pos {
                                assert(self.key(j) == q);
                            } else {
                                assert(self.key(j + 1) == q);
                            }
                        }
                        if q == k {
                            assert(self.key(pos as int) == q);
                        }
                    }
                    assert forall|q: Seq<char>| #[trigger] self@.contains_key(q) implies self@[q] == old_map.insert(k, v)[q] by {
                        let j = choose|j: int| 0 <= j < self.entries@.len() && #[trigger] self.key(j) == q;
                        self.lemma_entry(j);
                        if j < pos {
                            before.lemma_entry(j);
                        } else if j > pos {
                            before.lemma_entry(j - 1);
                        }
                    }
                    assert(self@ =~= old_map.insert(k, v));
                }
            },
        }
    }

    /// Where `key` is, or where it would go: `(true, i)` when entry `i` holds it, `(false, i)`
    /// when every key before `i` is less than it and every key from `i` on is greater.
    fn locate(&self, key: &str) -> (r: (bool, usize))
        ensures
            r.1 <= self.entries@.len(),
            r.0 ==> r.1 < self.entries@.len() && self.key(r.1 as int) == key@,
            !r.0 ==> forall|j: int| 0 <= j < r.1 ==> seq_less(#[trigger] self.key(j), key@),
            !r.0 ==> forall|j: int| r.1 <= j < self.entries@.len() ==> seq_less(key@, #[trigger] self.key(j)),
    {
        proof {
            use_type_invariant(self);
        }
        let mut lo: usize = 0;
        let mut hi: usize = self.entries.len();
        while lo < hi
            invariant
                lo <= hi <= self.entries@.len(),
                self.ordered(),
                forall|j: int| 0 <= j < lo ==> seq_less(#[trigger] self.key(j), key@),
                forall|j: int| hi <= j < self.entries@.len() ==> seq_less(key@, #[trigger] self.key(j)),
            decreases hi - lo,
        {
            let mid = lo + (hi - lo) / 2;
            let m = self.entries[mid].0.as_str();
            if str_eq(m, key) {
                return (true, mid);
            }
            let ghost km = self.key(mid as int);
            if str_less(m, key) {
                assert forall|j: int| 0 <= j < mid + 1 implies seq_less(#[trigger] self.key(j), key@) by {
                    if j < mid {
                        lemma_seq_less_transitive(self.key(j), km, key@);
                    }
                }
                lo = mid + 1;
            } else {
                proof {
                    lemma_seq_less_total(km, key@);
                }
                assert forall|j: int| mid <= j < self.entries@.len() implies seq_less(key@, #[trigger] self.key(j)) by {
                    if mid < j && j < hi {
                        lemma_seq_less_transitive(key@, km, self.key(j));
                    }
                }
                hi = mid;
            }
        }
        (false, lo)
    }

    fn find(&self, key: &str) -> (r: Option<usize>)
        ensures
            r matches Some(i) ==> i < self.entries@.len() && self.key(i as int) == key@,
            r is None ==> !self.has_key_at(key@),
    {
        let (found, i) = self.locate(key);
        if found {
            Some(i)
        } else {
            proof {
                lemma_seq_less_irreflexive(key@);
                if self.has_key_at(key@) {
                    let j = choose|j: int| 0 <= j < self.entries@.len() && #[trigger] self.key(j) == key@;
                    if j < i {
                        assert(seq_less(self.key(j), key@));
                    } else {
                        assert(seq_less(key@, self.key(j)));
                    }
                }
            }
            None
        }
    }
}

fn clone_opt(o: &Option<String>) -> (r: Option<String>)
    ensures
        r == *o,
{
    match o {
        Some(s) => Some(s.clone()),
        None => None,
    }
}

impl Clone for StrMap<Option<String>> {
    fn clone(&self) -> (c: Self)
        ensures
            c@ == self@,
    {
        proof {
            use_type_invariant(self);
        }
        let mut entries: Vec<(String, Option<String>)> = Vec::new();
        let mut i: usize = 0;
        while i < self.entries.len()
            invariant
                i <= self.entries@.len(),
                entries@.len() == i,
                forall|j: int|
                    0 <= j < i ==> (#[trigger] entries@[j]).0@ == self.entries@[j].0@ && entries@[j].1
                        == self.entries@[j].1,
            decreases self.entries@.len() - i,
        {
            let k = self.entries[i].0.clone();
            let v = clone_opt(&self.entries[i].1);
            entries.push((k, v));
            i = i + 1;
        }
        assert forall|a: int, b: int|
            0 <= a < entries@.len() && 0 <= b < entries@.len() && a != b implies
                #[trigger] entries@[a].0@ != #[trigger] entries@[b].0@ by {
            assert(self.key(a) != self.key(b));
        }
        assert forall|a: int, b: int| 0 <= a < b < entries@.len() implies seq_less(
            #[trigger] entries@[a].0@,
            #[trigger] entries@[b].0@,
        ) by {
            assert(seq_less(self.key(a), self.key(b)));
        }
        let c = StrMap { entries };
        assert forall|k: Seq<char>| c.has_key_at(k) == self.has_key_at(k) by {
            if c.has_key_at(k) {
                let i = choose|i: int| 0 <= i < c.entries@.len() && #[trigger] c.key(i) == k;
                assert(self.key(i) == k);
            }
            if self.has_key_at(k) {
                let i = choose|i: int| 0 <= i < self.entries@.len() && #[trigger] self.key(i) == k;
                assert(c.key(i) == k);
            }
        }
        assert forall|k: Seq<char>| #[trigger] c@.contains_key(k) implies c@[k] == self@[k] by {
            let i = choose|i: int| 0 <= i < c.entries@.len() && #[trigger] c.key(i) == k;
            c.lemma_entry(i);
            self.lemma_entry(i);
        }
        assert(c@ =~= self@);
        c
    }
}

impl<V> View for StrMap<V> {
    type V = Map<Seq<char>, V>;

    closed spec fn view(&self) -> Map<Seq<char>, V> {
        Map::new(
            |k: Seq<char>| self.has_key_at(k),
            |k: Seq<char>|
                self.entries@[choose|i: int| 0 <= i < self.entries@.len() && #[trigger] self.key(i) == k].1,
        )
    }
}

} // verus!
