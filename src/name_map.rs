use vstd::prelude::*;

use crate::string_set::lemma_push_to_set;

verus! {

/// Views each entry's key as its characters.
pub open spec fn entry_names<V>(entries: Seq<(String, V)>) -> Seq<Seq<char>> {
    entries.map_values(|e: (String, V)| e.0@)
}

/// A map from names to values, kept as entries in insertion order.
#[derive(Clone, Debug)]
pub struct NameMap<V> {
    entries: Vec<(String, V)>,
}

impl<V> View for NameMap<V> {
    type V = Map<Seq<char>, V>;

    closed spec fn view(&self) -> Map<Seq<char>, V> {
        Map::new(
            |k: Seq<char>| self.names().contains(k),
            |k: Seq<char>| self.entries@[self.names().index_of(k)].1,
        )
    }
}

impl<V> NameMap<V> {
    /// The keys in insertion order.
    pub closed spec fn names(&self) -> Seq<Seq<char>> {
        entry_names(self.entries@)
    }

    /// No key occurs twice.
    pub closed spec fn wf(&self) -> bool {
        self.names().no_duplicates()
    }

    /// The keys are those of `names()`, each once, and the map is finite.
    pub proof fn lemma_names(&self)
        requires
            self.wf(),
        ensures
            self.names().no_duplicates(),
            forall|k: Seq<char>| #[trigger] self@.contains_key(k) <==> self.names().contains(k),
            self@.dom() == self.names().to_set(),
            self@.dom().finite(),
            self@.dom().len() == self.names().len(),
    {
        assert(self@.dom() =~= self.names().to_set());
        self.names().unique_seq_to_set();
    }

    /// The map with no entries.
    pub fn new() -> (r: NameMap<V>)
        ensures
            r.wf(),
            r@ == Map::<Seq<char>, V>::empty(),
            r.names() == Seq::<Seq<char>>::empty(),
    {
        let r = NameMap { entries: Vec::new() };
        assert(r.names() =~= Seq::<Seq<char>>::empty());
        assert(r@ =~= Map::<Seq<char>, V>::empty());
        r
    }

    /// Number of entries.
    pub fn len(&self) -> (r: usize)
        ensures
            r == self.names().len(),
    {
        self.entries.len()
    }

    /// The key of the entry at position `i`.
    pub fn name_at(&self, i: usize) -> (r: &String)
        requires
            i < self.names().len(),
        ensures
            r@ == self.names()[i as int],
    {
        &self.entries[i].0
    }

    /// The value of the entry at position `i`.
    pub fn value_at(&self, i: usize) -> (r: &V)
        requires
            self.wf(),
            i < self.names().len(),
        ensures
            *r == self@[self.names()[i as int]],
    {
        proof {
            self.lemma_index(i as int);
        }
        &self.entries[i].1
    }

    proof fn lemma_index(&self, i: int)
        requires
            self.wf(),
            0 <= i < self.names().len(),
        ensures
            self@.contains_key(self.names()[i]),
            self.names().index_of(self.names()[i]) == i,
            self@[self.names()[i]] == self.entries@[i].1,
    {
        assert(self.names().contains(self.names()[i]));
    }

    /// The position of `k`, if it is a key.
    fn find(&self, k: &String) -> (r: Option<usize>)
        requires
            self.wf(),
        ensures
            r is None <==> !self@.contains_key(k@),
            r matches Some(i) ==> i < self.names().len() && self.names()[i as int] == k@,
    {
        proof {
            self.lemma_names();
        }
        let mut i: usize = 0;
        while i < self.entries.len()
            invariant
                self.wf(),
                i <= self.entries.len(),
                forall|j: int| 0 <= j < i ==> self.names()[j] != k@,
            decreases self.entries.len() - i,
        {
            if self.entries[i].0 == *k {
                assert(self.names()[i as int] == k@);
                return Some(i);
            }
            i += 1;
        }
        proof {
            assert(!self.names().contains(k@));
        }
        None
    }

    /// Whether `k` is a key.
    pub fn contains_key(&self, k: &String) -> (r: bool)
        requires
            self.wf(),
        ensures
            r == self@.contains_key(k@),
    {
        self.find(k).is_some()
    }

    /// The value under `k`, if any.
    pub fn get(&self, k: &String) -> (r: Option<&V>)
        requires
            self.wf(),
        ensures
            r is None <==> !self@.contains_key(k@),
            r matches Some(v) ==> self@.contains_key(k@) && *v == self@[k@],
    {
        match self.find(k) {
            Some(i) => {
                proof {
                    self.lemma_index(i as int);
                }
                Some(&self.entries[i].1)
            },
            None => None,
        }
    }

    /// Adds an entry under a key that is not yet present; it goes last.
    pub fn insert_new(&mut self, k: String, v: V)
        requires
            old(self).wf(),
            !old(self)@.contains_key(k@),
        ensures
            final(self).wf(),
            final(self)@ == old(self)@.insert(k@, v),
            final(self).names() == old(self).names().push(k@),
    {
        proof {
            old(self).lemma_names();
        }
        let ghost kv = k@;
        self.entries.push((k, v));
        assert(self.names() =~= old(self).names().push(kv));
        assert(self.names().no_duplicates());
        proof {
            self.lemma_names();
            lemma_push_to_set(old(self).names(), kv);
            assert(self@.dom() =~= old(self)@.insert(kv, v).dom());
            assert forall|key: Seq<char>| #[trigger] self@.contains_key(key) implies self@[key] == old(
                self,
            )@.insert(kv, v)[key] by {
                let i = self.names().index_of(key);
                self.lemma_index(i);
                if key != kv {
                    old(self).lemma_index(i);
                }
            }
        }
        assert(self@ =~= old(self)@.insert(kv, v));
    }

    /// Sets the value under `k`, adding the key if it is not present.
    pub fn insert(&mut self, k: String, v: V)
        requires
            old(self).wf(),
        ensures
            final(self).wf(),
            final(self)@ == old(self)@.insert(k@, v),
    {
        match self.find(&k) {
            None => self.insert_new(k, v),
            Some(i) => {
                let ghost kv = k@;
                proof {
                    old(self).lemma_names();
                }
                self.entries.set(i, (k, v));
                assert(self.names() =~= old(self).names());
                proof {
                    self.lemma_names();
                    assert forall|key: Seq<char>| #[trigger] self@.contains_key(key) implies self@[key]
                        == old(self)@.insert(kv, v)[key] by {
                        let j = self.names().index_of(key);
                        self.lemma_index(j);
                        if key != kv {
                            old(self).lemma_index(j);
                        } else {
                            self.lemma_index(i as int);
                        }
                    }
                }
                assert(self@ =~= old(self)@.insert(kv, v));
            },
        }
    }
}

} // verus!
