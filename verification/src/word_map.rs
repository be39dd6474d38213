//! A map from words (byte strings) to lists, kept sorted by word.

use vstd::prelude::*;
use crate::lex::{lex_lt, strictly_sorted, Order3, compare_bytes, lemma_lex_transitive, lemma_lex_irreflexive};

verus! {

/// The keys of a sequence of entries.
spec fn keys_of<T>(entries: Seq<(Vec<u8>, Vec<T>)>) -> Seq<Seq<u8>> {
    entries.map_values(|e: (Vec<u8>, Vec<T>)| e.0@)
}

/// The total length of the lists `ls`.
pub open spec fn total_len<T>(ls: Seq<Seq<T>>) -> int
    decreases ls.len(),
{
    if ls.len() == 0 {
        0
    } else {
        total_len(ls.drop_last()) + ls.last().len()
    }
}

proof fn lemma_total_len_update<T>(ls: Seq<Seq<T>>, i: int, x: Seq<T>)
    requires
        0 <= i < ls.len(),
    ensures
        total_len(ls.update(i, x)) == total_len(ls) - ls[i].len() + x.len(),
    decreases ls.len(),
{
    let u = ls.update(i, x);
    if i == ls.len() - 1 {
        assert(u.drop_last() =~= ls.drop_last());
    } else {
        assert(u.drop_last() =~= ls.drop_last().update(i, x));
        lemma_total_len_update(ls.drop_last(), i, x);
    }
}

proof fn lemma_total_len_insert<T>(ls: Seq<Seq<T>>, i: int, x: Seq<T>)
    requires
        0 <= i <= ls.len(),
    ensures
        total_len(ls.insert(i, x)) == total_len(ls) + x.len(),
    decreases ls.len(),
{
    let u = ls.insert(i, x);
    if i == ls.len() {
        assert(u.drop_last() =~= ls);
    } else {
        assert(u.drop_last() =~= ls.drop_last().insert(i, x));
        lemma_total_len_insert(ls.drop_last(), i, x);
    }
}

/// A finite map from byte-string keys to lists of values; its keys are
/// always held in strictly increasing lexicographic order.
pub struct WordMap<T> {
    entries: Vec<(Vec<u8>, Vec<T>)>,
}

impl<T> WordMap<T> {
    /// The keys, in increasing order.
    pub closed spec fn keys(&self) -> Seq<Seq<u8>> {
        keys_of(self.entries@)
    }

    /// The list of the key at the same position in `keys()`.
    pub closed spec fn lists(&self) -> Seq<Seq<T>> {
        self.entries@.map_values(|e: (Vec<u8>, Vec<T>)| e.1@)
    }

    /// The map's invariant: keys strictly increasing, one list per key.
    #[verifier::type_invariant]
    pub open spec fn wf(&self) -> bool {
        &&& strictly_sorted(self.keys())
        &&& self.keys().len() == self.lists().len()
    }

    /// The map as a mathematical map.
    pub open spec fn as_map(&self) -> Map<Seq<u8>, Seq<T>> {
        Map::new(
            |k: Seq<u8>| self.keys().contains(k),
            |k: Seq<u8>| self.lists()[self.keys().index_of(k)],
        )
    }

    /// An empty map.
    pub fn new() -> (m: Self)
        ensures
            m.keys().len() == 0,
            m.lists().len() == 0,
    {
        let m = WordMap { entries: Vec::new() };
        assert(m.keys() =~= Seq::<Seq<u8>>::empty());
        assert(m.lists() =~= Seq::<Seq<T>>::empty());
        m
    }

    /// The number of keys.
    pub fn len(&self) -> (n: usize)
        ensures
            n == self.keys().len(),
    {
        self.entries.len()
    }

    /// The key at position `i` in increasing order.
    pub fn key_at(&self, i: usize) -> (k: &[u8])
        requires
            i < self.keys().len(),
        ensures
            k@ == self.keys()[i as int],
    {
        self.entries[i].0.as_slice()
    }

    /// The list of the key at position `i`.
    pub fn list_at(&self, i: usize) -> (l: &Vec<T>)
        requires
            i < self.keys().len(),
        ensures
            l@ == self.lists()[i as int],
    {
        proof { use_type_invariant(self); }
        &self.entries[i].1
    }

    /// Binary search for `key`: `Ok(i)` when it is the key at `i`, else
    /// `Err(i)` with `i` the position at which it would be inserted.
    pub fn find(&self, key: &[u8]) -> (r: Result<usize, usize>)
        ensures
            r matches Ok(i) ==> i < self.keys().len() && self.keys()[i as int] == key@,
            r matches Err(i) ==> {
                &&& i <= self.keys().len()
                &&& !self.keys().contains(key@)
                &&& forall|j: int| 0 <= j < i ==> lex_lt(#[trigger] self.keys()[j], key@)
                &&& forall|j: int| i <= j < self.keys().len() ==> lex_lt(key@, #[trigger] self.keys()[j])
            },
    {
        proof { use_type_invariant(self); }
        let mut lo: usize = 0;
        let mut hi: usize = self.entries.len();
        while lo < hi
            invariant
                self.wf(),
                hi <= self.keys().len(),
                lo <= hi,
                forall|j: int| 0 <= j < lo ==> lex_lt(#[trigger] self.keys()[j], key@),
                forall|j: int| hi <= j < self.keys().len() ==> lex_lt(key@, #[trigger] self.keys()[j]),
            decreases hi - lo,
        {
            let mid: usize = lo + (hi - lo) / 2;
            let c = compare_bytes(self.entries[mid].0.as_slice(), key);
            assert(self.keys()[mid as int] == self.entries@[mid as int].0@);
            match c {
                Order3::Equal => {
                    return Ok(mid);
                },
                Order3::Less => {
                    assert forall|j: int| 0 <= j < mid + 1 implies lex_lt(#[trigger] self.keys()[j], key@) by {
                        if j < mid {
                            lemma_lex_transitive(self.keys()[j], self.keys()[mid as int], key@);
                        }
                    }
                    lo = mid + 1;
                },
                Order3::Greater => {
                    assert forall|j: int| mid <= j < self.keys().len() implies lex_lt(key@, #[trigger] self.keys()[j]) by {
                        if j > mid {
                            lemma_lex_transitive(key@, self.keys()[mid as int], self.keys()[j]);
                        }
                    }
                    hi = mid;
                },
            }
        }
        proof {
            if self.keys().contains(key@) {
                let j = self.keys().index_of(key@);
                lemma_lex_irreflexive(key@);
            }
        }
        Err(lo)
    }

    /// The list of `key`, if it is a key.
    pub fn get(&self, key: &[u8]) -> (r: Option<&Vec<T>>)
        ensures
            r is Some <==> self.as_map().contains_key(key@),
            r matches Some(l) ==> l@ == self.as_map()[key@],
    {
        proof { use_type_invariant(self); }
        match self.find(key) {
            Ok(i) => {
                proof { self.lemma_index_of(i as int); }
                Some(&self.entries[i].1)
            },
            Err(_) => None,
        }
    }

    /// In a map with strictly sorted keys, the position of a key is where it stands.
    pub proof fn lemma_index_of(&self, i: int)
        requires
            self.wf(),
            0 <= i < self.keys().len(),
        ensures
            self.keys().contains(self.keys()[i]),
            self.keys().index_of(self.keys()[i]) == i,
            self.as_map().contains_key(self.keys()[i]),
            self.as_map()[self.keys()[i]] == self.lists()[i],
    {
        let k = self.keys()[i];
        assert(self.keys().contains(k));
        let j = self.keys().index_of(k);
        if j != i {
            if j < i {
                assert(lex_lt(self.keys()[j], self.keys()[i]));
            } else {
                assert(lex_lt(self.keys()[i], self.keys()[j]));
            }
            lemma_lex_irreflexive(k);
        }
    }

    /// Appends `v` to the list of `key`, adding the key with an empty list first
    /// when it is absent.
    pub fn push(&mut self, key: &[u8], v: T)
        ensures
            total_len(final(self).lists()) == total_len(old(self).lists()) + 1,
            final(self).as_map() == old(self).as_map().insert(
                key@,
                if old(self).as_map().contains_key(key@) {
                    old(self).as_map()[key@].push(v)
                } else {
                    seq![v]
                },
            ),
    {
        proof {
            use_type_invariant(&*self);
            old(self).lemma_as_map_keys();
        }
        match self.find(key) {
            Ok(i) => {
                proof { self.lemma_index_of(i as int); }
                let mut entries: Vec<(Vec<u8>, Vec<T>)> = Vec::new();
                std::mem::swap(&mut entries, &mut self.entries);
                let ghost old_entries = entries@;
                entries[i].1.push(v);
                assert(keys_of(entries@) =~= keys_of(old_entries)) by {
                    assert forall|j: int| 0 <= j < entries@.len() implies #[trigger] entries@[j].0 == old_entries[j].0 by {}
                }
                self.entries = entries;
                assert(self.keys() =~= old(self).keys()) by {
                    assert forall|j: int| 0 <= j < self.keys().len() implies self.keys()[j] == old(self).keys()[j] by {
                        assert(self.entries@[j].0 == old_entries[j].0);
                    }
                }
                assert(self.lists() =~= old(self).lists().update(i as int, old(self).lists()[i as int].push(v)));
                proof { lemma_total_len_update(old(self).lists(), i as int, old(self).lists()[i as int].push(v)); }
                proof {
                    self.lemma_as_map_keys();
                    assert forall|k: Seq<u8>| #[trigger] self.as_map().contains_key(k) implies self.as_map()[k]
                        == old(self).as_map().insert(key@, old(self).as_map()[key@].push(v))[k] by {
                        let j = self.keys().index_of(k);
                        self.lemma_index_of(j);
                        old(self).lemma_index_of(j);
                    }
                    assert(self.as_map() =~= old(self).as_map().insert(key@, old(self).as_map()[key@].push(v)));
                }
            },
            Err(i) => {
                let mut l: Vec<T> = Vec::new();
                l.push(v);
                let k: Vec<u8> = vstd::slice::slice_to_vec(key);
                let mut entries: Vec<(Vec<u8>, Vec<T>)> = Vec::new();
                std::mem::swap(&mut entries, &mut self.entries);
                let ghost old_entries = entries@;
                entries.insert(i, (k, l));
                assert(keys_of(entries@) =~= keys_of(old_entries).insert(i as int, key@));
                assert(strictly_sorted(keys_of(entries@))) by {
                    let ks = keys_of(entries@);
                    let oks = keys_of(old_entries);
                    assert forall|a: int, b: int| 0 <= a < b < ks.len() implies lex_lt(
                        #[trigger] ks[a], #[trigger] ks[b]) by {
                        if b < i {
                        } else if a < i && b == i {
                        } else if a < i && b > i {
                            assert(ks[b] == oks[b - 1]);
                            lemma_lex_transitive(ks[a], key@, ks[b]);
                        } else if a == i {
                            assert(ks[b] == oks[b - 1]);
                        } else {
                            assert(ks[a] == oks[a - 1]);
                            assert(ks[b] == oks[b - 1]);
                        }
                    }
                }
                self.entries = entries;
                assert(self.keys() =~= old(self).keys().insert(i as int, key@));
                assert(self.lists() =~= old(self).lists().insert(i as int, seq![v]));
                proof { lemma_total_len_insert(old(self).lists(), i as int, seq![v]); }
                proof {
                    self.lemma_as_map_keys();
                    assert forall|kk: Seq<u8>| #[trigger] self.as_map().contains_key(kk) implies self.as_map()[kk]
                        == old(self).as_map().insert(key@, seq![v])[kk] by {
                        let j = self.keys().index_of(kk);
                        self.lemma_index_of(j);
                        if j < i {
                            old(self).lemma_index_of(j);
                        } else if j > i {
                            old(self).lemma_index_of(j - 1);
                        }
                    }
                    assert forall|kk: Seq<u8>| #[trigger] old(self).keys().contains(kk) implies self.keys().contains(kk) by {
                        let j = old(self).keys().index_of(kk);
                        if j < i {
                            assert(self.keys()[j] == kk);
                        } else {
                            assert(self.keys()[j + 1] == kk);
                        }
                    }
                    assert(self.keys()[i as int] == key@);
                    assert forall|kk: Seq<u8>| #[trigger] self.keys().contains(kk) implies old(self).keys().contains(kk) || kk == key@ by {
                        let j = self.keys().index_of(kk);
                        if j < i {
                            assert(old(self).keys()[j] == kk);
                        } else if j > i {
                            assert(old(self).keys()[j - 1] == kk);
                        }
                    }
                    assert(self.as_map() =~= old(self).as_map().insert(key@, seq![v]));
                }
            },
        }
    }

    /// The domain of `as_map()` is the set of keys.
    pub proof fn lemma_as_map_keys(&self)
        ensures
            forall|k: Seq<u8>| #[trigger] self.as_map().contains_key(k) <==> self.keys().contains(k),
    {
    }
}

} // verus!
