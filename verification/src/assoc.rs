//! Small association lists: the maps behind the page caches and the
//! browser's link tables. Keys are compared by their views.

use vstd::prelude::*;

verus! {

/// Keys that can be compared by their views.
pub trait KeyEq: View + Sized {
    fn key_eq(&self, other: &Self) -> (r: bool)
        ensures
            r == (self@ == other@),
    ;

    fn key_clone(&self) -> (r: Self)
        ensures
            r@ == self@,
    ;
}

impl KeyEq for String {
    fn key_eq(&self, other: &Self) -> (r: bool) {
        *self == *other
    }

    fn key_clone(&self) -> (r: Self) {
        self.clone()
    }
}

impl KeyEq for [u8; 16] {
    fn key_eq(&self, other: &Self) -> (r: bool) {
        let mut i: usize = 0;
        while i < 16
            invariant
                i <= 16,
                forall|k: int| 0 <= k < i ==> self@[k] == other@[k],
            decreases 16 - i,
        {
            if self[i] != other[i] {
                return false;
            }
            i = i + 1;
        }
        assert(self@ =~= other@);
        true
    }

    fn key_clone(&self) -> (r: Self) {
        *self
    }
}

/// No two entries share a key.
pub open spec fn unique_keys<K: View, V>(s: Seq<(K, V)>) -> bool {
    forall|i: int, j: int|
        0 <= i < s.len() && 0 <= j < s.len() && i != j ==> s[i].0@ != s[j].0@
}

/// Some entry has key `k`.
pub open spec fn has_key<K: View, V>(s: Seq<(K, V)>, k: K::V) -> bool {
    exists|i: int| 0 <= i < s.len() && s[i].0@ == k
}

/// The position of the entry with key `k`.
pub open spec fn key_index<K: View, V>(s: Seq<(K, V)>, k: K::V) -> int {
    choose|i: int| 0 <= i < s.len() && s[i].0@ == k
}

/// The map an entry list stands for.
pub open spec fn list_map<K: View, V>(s: Seq<(K, V)>) -> Map<K::V, V> {
    Map::new(|k: K::V| has_key(s, k), |k: K::V| s[key_index(s, k)].1)
}

/// A list of key/value entries with distinct keys, standing for a map.
#[derive(Debug)]
pub struct AssocList<K: View, V> {
    entries: Vec<(K, V)>,
}

impl<K: View, V> AssocList<K, V> {
    #[verifier::type_invariant]
    spec fn wf(self) -> bool {
        unique_keys(self.entries@)
    }
}

impl<K: KeyEq, V> AssocList<K, V> {
    /// The entries, in the order they were first inserted.
    pub closed spec fn entries(self) -> Seq<(K, V)> {
        self.entries@
    }

    /// The map the list stands for.
    pub open spec fn map(self) -> Map<K::V, V> {
        list_map(self.entries())
    }

    /// An entry's value is the map's value for its key.
    pub proof fn lemma_entry(self, i: int)
        requires
            unique_keys(self.entries()),
            0 <= i < self.entries().len(),
        ensures
            self.map().contains_key(self.entries()[i].0@),
            self.map()[self.entries()[i].0@] == self.entries()[i].1,
    {
        let s = self.entries();
        let k = s[i].0@;
        assert(has_key(s, k));
        let j = key_index(s, k);
        assert(j == i);
    }

    pub fn new() -> (l: Self)
        ensures
            l.entries() == Seq::<(K, V)>::empty(),
            l.map() == Map::<K::V, V>::empty(),
    {
        let l = AssocList { entries: Vec::new() };
        assert(l.map() =~= Map::<K::V, V>::empty());
        l
    }

    pub fn len(&self) -> (n: usize)
        ensures
            n == self.entries().len(),
    {
        self.entries.len()
    }

    /// The entry at position `i`.
    pub fn entry(&self, i: usize) -> (e: &(K, V))
        requires
            i < self.entries().len(),
        ensures
            *e == self.entries()[i as int],
    {
        &self.entries[i]
    }

    /// The position of the entry with key `k`.
    pub fn find(&self, k: &K) -> (r: Option<usize>)
        ensures
            match r {
                Some(i) => i < self.entries().len() && self.entries()[i as int].0@ == k@
                    && self.map().contains_key(k@),
                None => !self.map().contains_key(k@),
            },
    {
        let mut i: usize = 0;
        while i < self.entries.len()
            invariant
                i <= self.entries@.len(),
                forall|j: int| 0 <= j < i ==> self.entries@[j].0@ != k@,
            decreases self.entries@.len() - i,
        {
            if self.entries[i].0.key_eq(k) {
                assert(has_key(self.entries@, k@));
                return Some(i);
            }
            i = i + 1;
        }
        None
    }

    /// The keys, each once, in entry order.
    pub fn keys(&self) -> (r: Vec<K>)
        ensures
            r@.len() == self.entries().len(),
            forall|i: int| 0 <= i < r@.len() ==> #[trigger] r@[i]@ == self.entries()[i].0@,
            forall|i: int| 0 <= i < r@.len() ==> self.map().contains_key(#[trigger] r@[i]@),
            forall|k: K::V| self.map().contains_key(k) ==> exists|i: int| 0 <= i < r@.len() && #[trigger] r@[i]@ == k,
            forall|i: int, j: int| 0 <= i < r@.len() && 0 <= j < r@.len() && i != j ==> r@[i]@ != r@[j]@,
    {
        proof { use_type_invariant(self); }
        let mut r: Vec<K> = Vec::new();
        let mut i: usize = 0;
        while i < self.entries.len()
            invariant
                i <= self.entries@.len(),
                r@.len() == i,
                forall|j: int| 0 <= j < i ==> #[trigger] r@[j]@ == self.entries@[j].0@,
            decreases self.entries@.len() - i,
        {
            r.push(self.entries[i].0.key_clone());
            i = i + 1;
        }
        proof {
            let s = self.entries@;
            assert forall|j: int| 0 <= j < r@.len() implies self.map().contains_key(#[trigger] r@[j]@) by {
                assert(has_key(s, s[j].0@));
            }
            assert forall|k: K::V| self.map().contains_key(k) implies exists|j: int| 0 <= j < r@.len() && #[trigger] r@[j]@ == k by {
                let j = key_index(s, k);
                assert(r@[j]@ == k);
            }
        }
        r
    }

    /// The value for key `k`.
    pub fn get(&self, k: &K) -> (r: Option<&V>)
        ensures
            match r {
                Some(v) => self.map().contains_key(k@) && *v == self.map()[k@],
                None => !self.map().contains_key(k@),
            },
    {
        proof { use_type_invariant(self); }
        match self.find(k) {
            Some(i) => {
                proof { self.lemma_entry(i as int); }
                Some(&self.entries[i].1)
            },
            None => None,
        }
    }

    /// Sets the value for key `k`, keeping the position of an existing entry.
    pub fn insert(&mut self, k: K, v: V)
        ensures
            final(self).map() == old(self).map().insert(k@, v),
    {
        proof { use_type_invariant(&*self); }
        let ghost old_s = self.entries@;
        let ghost kv = k@;
        match self.find(&k) {
            Some(i) => {
                let mut entries: Vec<(K, V)> = Vec::new();
                std::mem::swap(&mut entries, &mut self.entries);
                entries.set(i, (k, v));
                proof {
                    let s = entries@;
                    assert forall|a: int, b: int| 0 <= a < s.len() && 0 <= b < s.len() && a != b implies s[a].0@ != s[b].0@ by {
                        if a != i && b != i {
                            assert(s[a] == old_s[a] && s[b] == old_s[b]);
                        } else if a == i {
                            assert(s[b] == old_s[b]);
                        } else {
                            assert(s[a] == old_s[a]);
                        }
                    }
                    assert(unique_keys(s));
                    assert(list_map(s) =~= list_map(old_s).insert(kv, v)) by {
                        assert forall|key: K::V| #[trigger] list_map(s).contains_key(key) == list_map(old_s).insert(kv, v).contains_key(key) by {
                            if has_key(old_s, key) {
                                let j = key_index(old_s, key);
                                if j != i {
                                    assert(s[j] == old_s[j]);
                                } else {
                                    assert(s[i as int].0@ == kv);
                                }
                                assert(has_key(s, key));
                            }
                            if has_key(s, key) {
                                let j = key_index(s, key);
                                if j != i { assert(s[j] == old_s[j]); assert(has_key(old_s, key)); }
                            }
                        }
                        assert forall|key: K::V| #[trigger] list_map(s).contains_key(key) implies list_map(s)[key] == list_map(old_s).insert(kv, v)[key] by {
                            let j = key_index(s, key);
                            if key == kv {
                                assert(j == i);
                            } else {
                                assert(j != i);
                                assert(s[j] == old_s[j]);
                                assert(has_key(old_s, key));
                                let j2 = key_index(old_s, key);
                                assert(j2 == j);
                            }
                        }
                    }
                }
                self.entries = entries;
            },
            None => {
                let mut entries: Vec<(K, V)> = Vec::new();
                std::mem::swap(&mut entries, &mut self.entries);
                entries.push((k, v));
                proof {
                    let s = entries@;
                    assert forall|a: int| 0 <= a < old_s.len() implies old_s[a].0@ != kv by {
                        if old_s[a].0@ == kv { assert(has_key(old_s, kv)); }
                    }
                    assert forall|a: int, b: int| 0 <= a < s.len() && 0 <= b < s.len() && a != b implies s[a].0@ != s[b].0@ by {
                        if a < old_s.len() && b < old_s.len() {
                            assert(s[a] == old_s[a] && s[b] == old_s[b]);
                        } else if a < old_s.len() {
                            assert(s[a] == old_s[a]);
                        } else {
                            assert(s[b] == old_s[b]);
                        }
                    }
                    assert(list_map(s) =~= list_map(old_s).insert(kv, v)) by {
                        assert forall|key: K::V| #[trigger] list_map(s).contains_key(key) == list_map(old_s).insert(kv, v).contains_key(key) by {
                            if has_key(old_s, key) {
                                let j = key_index(old_s, key);
                                assert(s[j] == old_s[j]);
                                assert(has_key(s, key));
                            }
                            if key == kv {
                                assert(s[old_s.len() as int].0@ == kv);
                                assert(has_key(s, key));
                            }
                            if has_key(s, key) && key != kv {
                                let j = key_index(s, key);
                                assert(j < old_s.len());
                                assert(s[j] == old_s[j]);
                                assert(has_key(old_s, key));
                            }
                        }
                        assert forall|key: K::V| #[trigger] list_map(s).contains_key(key) implies list_map(s)[key] == list_map(old_s).insert(kv, v)[key] by {
                            let j = key_index(s, key);
                            if key == kv {
                                assert(s[old_s.len() as int].0@ == kv);
                                assert(j == old_s.len());
                            } else {
                                assert(j < old_s.len());
                                assert(s[j] == old_s[j]);
                                assert(has_key(old_s, key));
                                let j2 = key_index(old_s, key);
                                assert(j2 == j);
                            }
                        }
                    }
                }
                self.entries = entries;
            },
        }
    }

    /// Removes the entry for key `k`, handing back its value.
    pub fn remove(&mut self, k: &K) -> (r: Option<V>)
        ensures
            final(self).map() == old(self).map().remove(k@),
            match r {
                Some(v) => old(self).map().contains_key(k@) && v == old(self).map()[k@],
                None => !old(self).map().contains_key(k@),
            },
    {
        proof { use_type_invariant(&*self); }
        let ghost old_s = self.entries@;
        let ghost kv = k@;
        match self.find(k) {
            Some(i) => {
                proof { self.lemma_entry(i as int); }
                let mut entries: Vec<(K, V)> = Vec::new();
                std::mem::swap(&mut entries, &mut self.entries);
                let (_, v) = entries.remove(i);
                proof {
                    let s = entries@;
                    assert forall|a: int| 0 <= a < s.len() implies #[trigger] s[a] == old_s[if a < i { a } else { a + 1 }] by {}
                    assert forall|a: int, b: int| 0 <= a < s.len() && 0 <= b < s.len() && a != b implies s[a].0@ != s[b].0@ by {
                        let a2 = if a < i { a } else { a + 1 };
                        let b2 = if b < i { b } else { b + 1 };
                        assert(s[a] == old_s[a2] && s[b] == old_s[b2]);
                    }
                    assert(list_map(s) =~= list_map(old_s).remove(kv)) by {
                        assert forall|key: K::V| #[trigger] list_map(s).contains_key(key) == list_map(old_s).remove(kv).contains_key(key) by {
                            if has_key(s, key) {
                                let j = key_index(s, key);
                                let j2 = if j < i { j } else { j + 1 };
                                assert(s[j] == old_s[j2]);
                                assert(has_key(old_s, key));
                                assert(j2 != i);
                            }
                            if has_key(old_s, key) && key != kv {
                                let j = key_index(old_s, key);
                                assert(j != i);
                                let j2 = if j < i { j } else { j - 1 };
                                assert(s[j2] == old_s[j]);
                                assert(has_key(s, key));
                            }
                        }
                        assert forall|key: K::V| #[trigger] list_map(s).contains_key(key) implies list_map(s)[key] == list_map(old_s).remove(kv)[key] by {
                            let j = key_index(s, key);
                            let j2 = if j < i { j } else { j + 1 };
                            assert(s[j] == old_s[j2]);
                            assert(has_key(old_s, key));
                            let j3 = key_index(old_s, key);
                            assert(j3 == j2);
                        }
                    }
                }
                self.entries = entries;
                Some(v)
            },
            None => {
                assert(list_map(old_s) =~= list_map(old_s).remove(kv));
                None
            },
        }
    }
}

} // verus!
