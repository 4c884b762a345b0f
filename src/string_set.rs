use vstd::prelude::*;

verus! {

/// Views each string of a sequence as its characters.
pub open spec fn char_seqs(items: Seq<String>) -> Seq<Seq<char>> {
    items.map_values(|s: String| s@)
}

/// Appending to a sequence adds the new element to its set of elements.
pub proof fn lemma_push_to_set<A>(s: Seq<A>, x: A)
    ensures
        s.push(x).to_set() == s.to_set().insert(x),
{
    assert forall|y: A| s.push(x).contains(y) <==> s.contains(y) || y == x by {
        if s.contains(y) {
            let j = choose|j: int| 0 <= j < s.len() && s[j] == y;
            assert(s.push(x)[j] == y);
        }
        if y == x {
            assert(s.push(x)[s.len() as int] == x);
        }
        if s.push(x).contains(y) {
            let j = choose|j: int| 0 <= j < s.len() + 1 && s.push(x)[j] == y;
            if j < s.len() {
                assert(s[j] == y);
            }
        }
    }
    assert forall|y: A| #[trigger] s.push(x).to_set().contains(y) == s.to_set().insert(x).contains(y) by {
        assert(s.push(x).to_set().contains(y) == s.push(x).contains(y));
        assert(s.to_set().contains(y) == s.contains(y));
    }
    assert(s.push(x).to_set() =~= s.to_set().insert(x));
}

/// A finite set of strings (tag names or paths), kept in insertion order.
///
/// The order only makes iteration deterministic; the contracts speak of the
/// set `self@` of the strings' characters.
#[derive(Clone, Debug)]
pub struct StringSet {
    items: Vec<String>,
}

impl View for StringSet {
    type V = Set<Seq<char>>;

    open spec fn view(&self) -> Set<Seq<char>> {
        self.elems().to_set()
    }
}

impl StringSet {
    /// The members in iteration order.
    pub closed spec fn elems(&self) -> Seq<Seq<char>> {
        char_seqs(self.items@)
    }

    /// The empty set.
    pub fn new() -> (r: StringSet)
        ensures
            r@ == Set::<Seq<char>>::empty(),
            r.elems() == Seq::<Seq<char>>::empty(),
    {
        let r = StringSet { items: Vec::new() };
        assert(r@ =~= Set::<Seq<char>>::empty());
        assert(r.elems() =~= Seq::<Seq<char>>::empty());
        r
    }

    /// Number of members visited by an iteration.
    pub fn len(&self) -> (r: usize)
        ensures
            r == self.elems().len(),
    {
        self.items.len()
    }

    /// The member at position `i` of the iteration order.
    pub fn get(&self, i: usize) -> (r: &String)
        requires
            i < self.elems().len(),
        ensures
            r@ == self.elems()[i as int],
    {
        &self.items[i]
    }

    /// Whether no string is a member.
    pub fn is_empty(&self) -> (r: bool)
        ensures
            r <==> self@ == Set::<Seq<char>>::empty(),
    {
        if self.items.len() == 0 {
            assert(self@ =~= Set::<Seq<char>>::empty());
            true
        } else {
            assert(self@.contains(self.elems()[0]));
            false
        }
    }

    /// Whether `s` is a member.
    pub fn contains(&self, s: &String) -> (r: bool)
        ensures
            r == self@.contains(s@),
    {
        let mut i: usize = 0;
        while i < self.items.len()
            invariant
                i <= self.items.len(),
                forall|j: int| 0 <= j < i ==> self.elems()[j] != s@,
            decreases self.items.len() - i,
        {
            if self.items[i] == *s {
                assert(self.elems()[i as int] == s@);
                return true;
            }
            i += 1;
        }
        false
    }

    /// Adds `s`; returns whether it was absent. A new member goes last in the
    /// iteration order.
    pub fn insert(&mut self, s: String) -> (r: bool)
        ensures
            r == !old(self)@.contains(s@),
            final(self)@ == old(self)@.insert(s@),
            r ==> final(self).elems() == old(self).elems().push(s@),
            !r ==> final(self).elems() == old(self).elems(),
    {
        if self.contains(&s) {
            assert(old(self)@.insert(s@) =~= old(self)@);
            false
        } else {
            self.items.push(s);
            assert(self.elems() =~= old(self).elems().push(s@));
            proof {
                lemma_push_to_set(old(self).elems(), s@);
            }
            assert(self@ =~= old(self)@.insert(s@));
            true
        }
    }

    /// Removes `s`; returns whether it was present.
    pub fn remove(&mut self, s: &String) -> (r: bool)
        ensures
            r == old(self)@.contains(s@),
            final(self)@ == old(self)@.remove(s@),
    {
        let ghost start = self.elems();
        let mut kept: Vec<String> = Vec::new();
        let mut i: usize = 0;
        let mut found = false;
        while i < self.items.len()
            invariant
                i <= self.items.len(),
                self.elems() == start,
                found == start.subrange(0, i as int).contains(s@),
                char_seqs(kept@).to_set() == start.subrange(0, i as int).to_set().remove(s@),
            decreases self.items.len() - i,
        {
            let item = self.items[i].clone();
            let ghost before = kept@;
            assert(start.subrange(0, i + 1) =~= start.subrange(0, i as int).push(item@));
            proof {
                lemma_push_to_set(start.subrange(0, i as int), item@);
            }
            if item == *s {
                found = true;
                assert(start.subrange(0, i + 1)[i as int] == s@);
            } else {
                kept.push(item);
                assert(char_seqs(kept@) =~= char_seqs(before).push(item@));
                proof {
                    lemma_push_to_set(char_seqs(before), item@);
                }
            }
            assert(char_seqs(kept@).to_set() =~= start.subrange(0, i + 1).to_set().remove(s@));
            i += 1;
        }
        assert(start.subrange(0, i as int) =~= start);
        self.items = kept;
        assert(self@ =~= old(self)@.remove(s@));
        found
    }

    /// Adds every member of `other`.
    pub fn extend(&mut self, other: &StringSet)
        ensures
            final(self)@ == old(self)@.union(other@),
    {
        let mut i: usize = 0;
        while i < other.len()
            invariant
                i <= other.elems().len(),
                self@ == old(self)@.union(other.elems().subrange(0, i as int).to_set()),
            decreases other.elems().len() - i,
        {
            assert(other.elems().subrange(0, i + 1) =~= other.elems().subrange(0, i as int).push(
                other.elems()[i as int],
            ));
            proof {
                lemma_push_to_set(other.elems().subrange(0, i as int), other.elems()[i as int]);
            }
            self.insert(other.get(i).clone());
            assert(self@ =~= old(self)@.union(other.elems().subrange(0, i + 1).to_set()));
            i += 1;
        }
        assert(other.elems().subrange(0, other.elems().len() as int) =~= other.elems());
    }

    /// Removes every member of `other`.
    pub fn remove_all(&mut self, other: &StringSet)
        ensures
            final(self)@ == old(self)@.difference(other@),
    {
        let mut i: usize = 0;
        while i < other.len()
            invariant
                i <= other.elems().len(),
                self@ == old(self)@.difference(other.elems().subrange(0, i as int).to_set()),
            decreases other.elems().len() - i,
        {
            assert(other.elems().subrange(0, i + 1) =~= other.elems().subrange(0, i as int).push(
                other.elems()[i as int],
            ));
            proof {
                lemma_push_to_set(other.elems().subrange(0, i as int), other.elems()[i as int]);
            }
            self.remove(other.get(i));
            assert(self@ =~= old(self)@.difference(other.elems().subrange(0, i + 1).to_set()));
            i += 1;
        }
        assert(other.elems().subrange(0, other.elems().len() as int) =~= other.elems());
    }

    /// Keeps only the members that `other` also holds.
    pub fn retain_in(&mut self, other: &StringSet)
        ensures
            final(self)@ == old(self)@.intersect(other@),
    {
        let ghost start = self.elems();
        let mut kept: Vec<String> = Vec::new();
        let mut i: usize = 0;
        while i < self.items.len()
            invariant
                i <= self.items.len(),
                self.elems() == start,
                char_seqs(kept@).to_set() == start.subrange(0, i as int).to_set().intersect(other@),
            decreases self.items.len() - i,
        {
            let item = self.items[i].clone();
            let ghost before = kept@;
            assert(start.subrange(0, i + 1) =~= start.subrange(0, i as int).push(item@));
            proof {
                lemma_push_to_set(start.subrange(0, i as int), item@);
            }
            if other.contains(&item) {
                kept.push(item);
                assert(char_seqs(kept@) =~= char_seqs(before).push(item@));
                proof {
                    lemma_push_to_set(char_seqs(before), item@);
                }
            }
            assert(char_seqs(kept@).to_set() =~= start.subrange(0, i + 1).to_set().intersect(other@));
            i += 1;
        }
        assert(start.subrange(0, i as int) =~= start);
        self.items = kept;
        assert(self@ =~= old(self)@.intersect(other@));
    }

    /// Empties the set.
    pub fn clear(&mut self)
        ensures
            final(self)@ == Set::<Seq<char>>::empty(),
    {
        self.items = Vec::new();
        assert(self@ =~= Set::<Seq<char>>::empty());
    }

    /// The members as a vector, in iteration order.
    pub fn to_vec(&self) -> (r: Vec<String>)
        ensures
            char_seqs(r@) == self.elems(),
    {
        self.duplicate().items
    }

    /// The set of the strings in `v`.
    pub fn from_vec(v: Vec<String>) -> (r: StringSet)
        ensures
            r@ == char_seqs(v@).to_set(),
    {
        let mut r = StringSet::new();
        let mut i: usize = 0;
        while i < v.len()
            invariant
                i <= v.len(),
                r@ == char_seqs(v@).subrange(0, i as int).to_set(),
            decreases v.len() - i,
        {
            assert(char_seqs(v@).subrange(0, i + 1) =~= char_seqs(v@).subrange(0, i as int).push(
                v@[i as int]@,
            ));
            proof {
                lemma_push_to_set(char_seqs(v@).subrange(0, i as int), v@[i as int]@);
            }
            r.insert(v[i].clone());
            i += 1;
        }
        assert(char_seqs(v@).subrange(0, v.len() as int) =~= char_seqs(v@));
        r
    }

    /// A copy with the same members in the same order.
    pub fn duplicate(&self) -> (r: StringSet)
        ensures
            r@ == self@,
            r.elems() == self.elems(),
    {
        let mut items: Vec<String> = Vec::new();
        let mut i: usize = 0;
        while i < self.items.len()
            invariant
                i <= self.items.len(),
                char_seqs(items@) == self.elems().subrange(0, i as int),
            decreases self.items.len() - i,
        {
            let ghost before = items@;
            let item = self.items[i].clone();
            assert(item@ == self.elems()[i as int]);
            items.push(item);
            assert(char_seqs(before).len() == i);
            assert(items@ == before.push(item));
            assert(char_seqs(items@).len() == i + 1);
            assert forall|j: int| 0 <= j < i + 1 implies char_seqs(items@)[j] == self.elems().subrange(0, i + 1)[j] by {
                if j < i {
                    assert(char_seqs(before)[j] == self.elems().subrange(0, i as int)[j]);
                }
            }
            assert(char_seqs(items@) =~= self.elems().subrange(0, i + 1));
            i += 1;
        }
        let r = StringSet { items };
        assert(r.elems() =~= self.elems());
        r
    }
}

} // verus!
