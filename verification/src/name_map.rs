//! A map keyed by names, which keeps its entries in insertion order.
use vstd::prelude::*;

use crate::text::{string_views, text_eq};

verus! {

/// The names of a sequence of named entries.
pub open spec fn names_of<V>(s: Seq<(String, V)>) -> Seq<Seq<char>> {
    s.map_values(|e: (String, V)| e.0@)
}

/// A map from names to values. Each name occurs at most once; names keep
/// the order in which they were first inserted.
#[derive(Debug)]
pub struct NameMap<V> {
    entries: Vec<(String, V)>,
}

impl<V> NameMap<V> {
    /// The names, in insertion order.
    pub closed spec fn key_order(&self) -> Seq<Seq<char>> {
        names_of(self.entries@)
    }

    #[verifier::type_invariant]
    closed spec fn keys_distinct(&self) -> bool {
        self.key_order().no_duplicates()
    }

    /// The value stored under the name at position `i` of `key_order`.
    closed spec fn value_at(&self, i: int) -> V {
        self.entries@[i].1
    }

    proof fn lemma_key_order(&self)
        requires
            self.key_order().no_duplicates(),
        ensures
            self.key_order().len() == self@.len(),
            self@.dom().finite(),
            forall|k: Seq<char>| #[trigger] self@.contains_key(k) <==> self.key_order().contains(k),
    {
        let ks = self.key_order();
        assert(self@.dom() =~= ks.to_set());
        ks.unique_seq_to_set();
    }

    proof fn lemma_index(&self, i: int)
        requires
            self.key_order().no_duplicates(),
            0 <= i < self.entries@.len(),
        ensures
            self@.contains_key(self.key_order()[i]),
            self@[self.key_order()[i]] == self.value_at(i),
    {
        let ks = self.key_order();
        let k = ks[i];
        assert(ks.contains(k));
        let j = ks.index_of(k);
        assert(ks[j] == k);
    }

    /// An empty map.
    pub fn new() -> (r: Self)
        ensures
            r@ == Map::<Seq<char>, V>::empty(),
            r.key_order() == Seq::<Seq<char>>::empty(),
    {
        let r = NameMap { entries: Vec::new() };
        assert(r@ =~= Map::<Seq<char>, V>::empty());
        assert(r.key_order() =~= Seq::<Seq<char>>::empty());
        r
    }

    /// The number of names held.
    pub fn len(&self) -> (r: usize)
        ensures
            r == self@.len(),
            r == self.key_order().len(),
            self.key_order().no_duplicates(),
            forall|k: Seq<char>| #[trigger] self@.contains_key(k) <==> self.key_order().contains(k),
    {
        proof {
            use_type_invariant(self);
            self.lemma_key_order();
        }
        self.entries.len()
    }

    /// The position of `k` in `key_order`, if the map holds it.
    fn find(&self, k: &str) -> (r: Option<usize>)
        ensures
            match r {
                Some(i) => i < self.key_order().len() && self.key_order()[i as int] == k@,
                None => !self.key_order().contains(k@),
            },
    {
        let mut i: usize = 0;
        while i < self.entries.len()
            invariant
                i <= self.entries@.len(),
                forall|j: int| 0 <= j < i ==> self.key_order()[j] != k@,
            decreases self.entries@.len() - i,
        {
            if text_eq(self.entries[i].0.as_str(), k) {
                return Some(i);
            }
            i = i + 1;
        }
        None
    }

    /// Whether the map holds `k`.
    pub fn contains_key(&self, k: &str) -> (r: bool)
        ensures
            r == self@.contains_key(k@),
    {
        proof {
            use_type_invariant(self);
            self.lemma_key_order();
        }
        self.find(k).is_some()
    }

    /// The value stored under `k`.
    pub fn get(&self, k: &str) -> (r: Option<&V>)
        ensures
            match r {
                Some(v) => self@.contains_key(k@) && *v == self@[k@],
                None => !self@.contains_key(k@),
            },
    {
        proof {
            use_type_invariant(self);
            self.lemma_key_order();
        }
        match self.find(k) {
            Some(i) => {
                proof {
                    self.lemma_index(i as int);
                }
                Some(&self.entries[i].1)
            },
            None => None,
        }
    }

    /// The name at position `i` of `key_order` and the value stored under it.
    pub fn get_index(&self, i: usize) -> (r: (&String, &V))
        requires
            i < self.key_order().len(),
        ensures
            r.0@ == self.key_order()[i as int],
            self@.contains_key(r.0@),
            *r.1 == self@[r.0@],
    {
        proof {
            use_type_invariant(self);
            self.lemma_index(i as int);
        }
        (&self.entries[i].0, &self.entries[i].1)
    }

    /// Stores `v` under `k`, replacing what was stored there. A new name goes
    /// to the end of `key_order`; a name already held keeps its position.
    pub fn insert(&mut self, k: String, v: V)
        ensures
            final(self)@ == old(self)@.insert(k@, v),
            old(self).key_order().contains(k@) ==> final(self).key_order() == old(self).key_order(),
            !old(self).key_order().contains(k@) ==> final(self).key_order() == old(
                self,
            ).key_order().push(k@),
    {
        proof {
            use_type_invariant(&*self);
        }
        let ghost old_map = self@;
        let ghost old_keys = self.key_order();
        let ghost kv = k@;
        let found = self.find(k.as_str());
        let mut entries: Vec<(String, V)> = Vec::new();
        std::mem::swap(&mut entries, &mut self.entries);
        assert(names_of(entries@) == old_keys);
        match found {
            Some(i) => {
                entries.set(i, (k, v));
                let ghost new_keys = names_of(entries@);
                assert(new_keys =~= old_keys);
                self.entries = entries;
                proof {
                    assert forall|q: Seq<char>| #[trigger]
                        self@.contains_key(q) implies self@[q] == old_map.insert(kv, v)[q] by {
                        let j = old_keys.index_of(q);
                        if q == kv {
                            assert(old_keys[i as int] == kv);
                        } else {
                            assert(old_keys.contains(q));
                            assert(old_keys[j] == q);
                            assert(j != i);
                        }
                    }
                    assert(self@ =~= old_map.insert(kv, v));
                }
            },
            None => {
                entries.push((k, v));
                let ghost new_keys = names_of(entries@);
                assert(new_keys =~= old_keys.push(kv));
                self.entries = entries;
                proof {
                    let n = old_keys.len() as int;
                    assert(new_keys[n] == kv);
                    assert forall|q: Seq<char>| #[trigger]
                        self@.contains_key(q) implies self@[q] == old_map.insert(kv, v)[q] by {
                        let j = new_keys.index_of(q);
                        assert(new_keys.contains(q));
                        assert(new_keys[j] == q);
                        if q == kv {
                            assert(new_keys[n] == kv);
                        } else {
                            assert(j < n);
                            assert(old_keys[j] == q);
                            assert(old_keys.contains(q));
                            let j0 = old_keys.index_of(q);
                            assert(old_keys[j0] == q);
                            assert(new_keys[j0] == q);
                        }
                    }
                    assert forall|q: Seq<char>|
                        old_map.insert(kv, v).contains_key(q) implies #[trigger] self@.contains_key(
                        q,
                    ) by {
                        if q != kv {
                            let j0 = old_keys.index_of(q);
                            assert(new_keys[j0] == q);
                        }
                    }
                    assert(self@ =~= old_map.insert(kv, v));
                }
            },
        }
    }

    /// The names held, in `key_order`.
    pub fn keys(&self) -> (r: Vec<String>)
        ensures
            string_views(r@) == self.key_order(),
            self.key_order().no_duplicates(),
            forall|k: Seq<char>| #[trigger] self@.contains_key(k) <==> self.key_order().contains(k),
    {
        proof {
            use_type_invariant(self);
            self.lemma_key_order();
        }
        let mut r: Vec<String> = Vec::new();
        let mut i: usize = 0;
        while i < self.entries.len()
            invariant
                i <= self.entries@.len(),
                r@.len() == i,
                string_views(r@) == self.key_order().take(i as int),
            decreases self.entries@.len() - i,
        {
            let ghost prev = r@;
            r.push(self.entries[i].0.clone());
            proof {
                assert(string_views(r@) =~= string_views(prev).push(self.entries@[i as int].0@));
                assert(self.key_order().take(i + 1) =~= self.key_order().take(i as int).push(
                    self.key_order()[i as int],
                ));
            }
            i = i + 1;
            assert(string_views(r@) =~= self.key_order().take(i as int));
        }
        assert(self.key_order().take(i as int) =~= self.key_order());
        r
    }
}

impl<V: Clone> Clone for NameMap<V> {
    /// A map with the same names in the same order, each value cloned.
    fn clone(&self) -> (r: Self)
        ensures
            r.key_order() == self.key_order(),
            forall|k: Seq<char>| #[trigger] self@.contains_key(k) ==> cloned::<V>(self@[k], r@[k]),
    {
        proof {
            use_type_invariant(self);
        }
        let mut entries: Vec<(String, V)> = Vec::new();
        let mut i: usize = 0;
        while i < self.entries.len()
            invariant
                i <= self.entries@.len(),
                entries@.len() == i,
                names_of(entries@) == self.key_order().take(i as int),
                forall|j: int| 0 <= j < i ==> cloned::<V>(self.entries@[j].1, #[trigger] entries@[j].1),
            decreases self.entries@.len() - i,
        {
            let ghost prev = entries@;
            let k = self.entries[i].0.clone();
            let v = self.entries[i].1.clone();
            entries.push((k, v));
            proof {
                assert(names_of(entries@) =~= names_of(prev).push(self.entries@[i as int].0@));
                assert(self.key_order().take(i + 1) =~= self.key_order().take(i as int).push(
                    self.key_order()[i as int],
                ));
            }
            i = i + 1;
            assert(names_of(entries@) =~= self.key_order().take(i as int));
        }
        assert(self.key_order().take(i as int) =~= self.key_order());
        let r = NameMap { entries };
        proof {
            assert(r.key_order() =~= self.key_order());
            assert forall|k: Seq<char>| #[trigger] self@.contains_key(k) implies cloned::<V>(self@[k], r@[k]) by {
                let j = self.key_order().index_of(k);
                assert(self.key_order().contains(k));
                assert(self.key_order()[j] == k);
                assert(r.key_order()[j] == k);
                assert(r.key_order().contains(k));
                assert(r.key_order().index_of(k) == j) by {
                    let j2 = r.key_order().index_of(k);
                    assert(r.key_order()[j2] == k);
                };
            }
        }
        r
    }
}

impl<V> View for NameMap<V> {
    type V = Map<Seq<char>, V>;

    /// Each held name maps to the value stored with it.
    closed spec fn view(&self) -> Map<Seq<char>, V> {
        Map::new(
            |k: Seq<char>| self.key_order().contains(k),
            |k: Seq<char>| self.value_at(self.key_order().index_of(k)),
        )
    }
}

} // verus!
