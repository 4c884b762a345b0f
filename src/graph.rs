use itertools::Itertools;
use vstd::prelude::*;

use crate::name_map::NameMap;
use crate::reach::{reach_names, reached};
use crate::record::{PathMetadata, RawTag, TagView};
use crate::string_set::StringSet;

verus! {

/// A record together with every tag record reachable from it, by name.
#[derive(Clone, Debug)]
pub struct ResolvedTags {
    raw: RawTag,
    tags: NameMap<RawTag>,
}

impl ResolvedTags {
    /// The root record.
    pub closed spec fn root(&self) -> TagView {
        self.raw@
    }

    /// The resolved records by name.
    pub closed spec fn records(&self) -> Map<Seq<char>, RawTag> {
        self.tags@
    }

    /// The mapping has each name once.
    pub closed spec fn wf(&self) -> bool {
        self.tags.wf()
    }

    pub(crate) fn from_parts(raw: RawTag, tags: NameMap<RawTag>) -> (r: ResolvedTags)
        requires
            tags.wf(),
        ensures
            r.wf(),
            r.root() == raw@,
            r.records() == tags@,
    {
        ResolvedTags { raw, tags }
    }

    /// The root record.
    pub fn raw(&self) -> (r: &RawTag)
        ensures
            r@ == self.root(),
    {
        &self.raw
    }

    /// The root record, giving up the rest of the graph.
    pub fn into_raw(self) -> (r: RawTag)
        ensures
            r@ == self.root(),
    {
        self.raw
    }

    /// The resolved records by name.
    pub fn tags(&self) -> (r: &NameMap<RawTag>)
        ensures
            r.wf() == self.wf(),
            r@ == self.records(),
    {
        &self.tags
    }
}

/// The paths held by the records of `m` under the names of `names`.
pub open spec fn paths_of(m: Map<Seq<char>, RawTag>, names: Set<Seq<char>>) -> Set<Seq<char>> {
    Set::new(
        |p: Seq<char>|
            exists|k: Seq<char>| #[trigger] names.contains(k) && m.contains_key(k) && m[k]@.paths.contains(p),
    )
}

/// The paths of `t` with those of every record reachable from it through
/// inclusions.
pub open spec fn union_of(m: Map<Seq<char>, RawTag>, t: TagView) -> Set<Seq<char>> {
    t.paths.union(paths_of(m, reached(m, t.include_tags, false)))
}

/// The paths of `t` with those common to the unions of all the tags `t`
/// includes; none are common when `t` includes no tag, or a tag without a
/// record.
pub open spec fn intersection_of(m: Map<Seq<char>, RawTag>, t: TagView) -> Set<Seq<char>> {
    t.paths.union(
        Set::new(
            |p: Seq<char>|
                (exists|k: Seq<char>| #[trigger] t.include_tags.contains(k)) && forall|k: Seq<char>|
                    #[trigger] t.include_tags.contains(k) ==> m.contains_key(k) && union_of(m, m[k]@).contains(p),
        ),
    )
}

/// An optional set seen through its members.
pub open spec fn opt_view(o: Option<StringSet>) -> Option<Set<Seq<char>>> {
    match o {
        Some(s) => Some(s@),
        None => None,
    }
}

/// Each optional set of a sequence seen through its members.
pub open spec fn opt_views(s: Seq<Option<StringSet>>) -> Seq<Option<Set<Seq<char>>>> {
    s.map_values(|o: Option<StringSet>| opt_view(o))
}

/// The meet of two optional sets: absent if either is, else the intersection.
pub open spec fn meet(a: Option<Set<Seq<char>>>, b: Option<Set<Seq<char>>>) -> Option<Set<Seq<char>>> {
    match (a, b) {
        (Some(x), Some(y)) => Some(x.intersect(y)),
        _ => None,
    }
}

/// The meet of all optional sets of a non-empty sequence, left to right.
pub open spec fn meet_all(s: Seq<Option<Set<Seq<char>>>>) -> Option<Set<Seq<char>>>
    decreases s.len(),
{
    if s.len() <= 1 {
        if s.len() == 1 {
            s[0]
        } else {
            None
        }
    } else {
        meet(meet_all(s.drop_last()), s.last())
    }
}

/// The meet of a non-empty sequence is absent exactly when one of its sets
/// is, and otherwise holds what all of them hold.
pub proof fn lemma_meet_all(s: Seq<Option<Set<Seq<char>>>>)
    requires
        s.len() > 0,
    ensures
        meet_all(s) is None <==> exists|i: int| 0 <= i < s.len() && #[trigger] s[i] is None,
        meet_all(s) is Some ==> forall|p: Seq<char>|
            #[trigger] meet_all(s)->0.contains(p) <==> forall|i: int| 0 <= i < s.len() ==> (#[trigger] s[i])->0.contains(p),
    decreases s.len(),
{
    if s.len() > 1 {
        let t = s.drop_last();
        lemma_meet_all(t);
        assert forall|i: int| 0 <= i < t.len() implies #[trigger] t[i] == s[i] by {}
        if exists|i: int| 0 <= i < s.len() && #[trigger] s[i] is None {
            let i = choose|i: int| 0 <= i < s.len() && #[trigger] s[i] is None;
            if i < t.len() {
                assert(t[i] is None);
            }
        }
        if meet_all(s) is None {
            if meet_all(t) is None {
                let i = choose|i: int| 0 <= i < t.len() && #[trigger] t[i] is None;
                assert(s[i] is None);
            } else {
                assert(s[s.len() - 1] is None);
            }
        }
        if let Some(x) = meet_all(s) {
            assert forall|p: Seq<char>| #[trigger] x.contains(p) <==> forall|i: int|
                0 <= i < s.len() ==> (#[trigger] s[i])->0.contains(p) by {
                if x.contains(p) {
                    assert forall|i: int| 0 <= i < s.len() implies (#[trigger] s[i])->0.contains(p) by {
                        if i < t.len() {
                            assert(t[i] == s[i]);
                        }
                    }
                }
                if forall|i: int| 0 <= i < s.len() ==> (#[trigger] s[i])->0.contains(p) {
                    assert forall|i: int| 0 <= i < t.len() implies (#[trigger] t[i])->0.contains(p) by {
                        assert(t[i] == s[i]);
                    }
                    assert(s[s.len() - 1]->0.contains(p));
                }
            }
        }
    }
}

/// The meet of the per-include unions does not depend on the order in which
/// the included tags are visited: two non-empty sequences with the same
/// members have the same meet.
pub proof fn lemma_meet_order_free(s1: Seq<Option<Set<Seq<char>>>>, s2: Seq<Option<Set<Seq<char>>>>)
    requires
        s1.len() > 0,
        s1.to_set() == s2.to_set(),
    ensures
        meet_all(s1) == meet_all(s2),
{
    assert(s1.to_set().contains(s1[0]));
    assert(s2.to_set().contains(s1[0]));
    lemma_meet_all(s1);
    lemma_meet_all(s2);
    assert(meet_all(s1) is None <==> meet_all(s2) is None) by {
        if meet_all(s1) is None {
            let i = choose|i: int| 0 <= i < s1.len() && #[trigger] s1[i] is None;
            assert(s1.to_set().contains(s1[i]));
            assert(s2.contains(s1[i]));
        }
        if meet_all(s2) is None {
            let i = choose|i: int| 0 <= i < s2.len() && #[trigger] s2[i] is None;
            assert(s2.to_set().contains(s2[i]));
            assert(s1.contains(s2[i]));
        }
    }
    if let Some(x) = meet_all(s1) {
        let y = meet_all(s2)->0;
        assert forall|p: Seq<char>| x.contains(p) <==> y.contains(p) by {
            if x.contains(p) {
                assert forall|i: int| 0 <= i < s2.len() implies (#[trigger] s2[i])->0.contains(p) by {
                    assert(s2.to_set().contains(s2[i]));
                    let j = choose|j: int| 0 <= j < s1.len() && s1[j] == s2[i];
                    assert(s1[j]->0.contains(p));
                }
            }
            if y.contains(p) {
                assert forall|i: int| 0 <= i < s1.len() implies (#[trigger] s1[i])->0.contains(p) by {
                    assert(s1.to_set().contains(s1[i]));
                    let j = choose|j: int| 0 <= j < s2.len() && s2[j] == s1[i];
                    assert(s2[j]->0.contains(p));
                }
            }
        }
        assert(x =~= y);
    }
}

/// The intersection of two optional sets: absent if either is. The smaller
/// set is walked and tested against the larger.
pub fn fallible_intersection(lhs: Option<StringSet>, rhs: Option<StringSet>) -> (r: Option<StringSet>)
    ensures
        opt_view(r) == meet(opt_view(lhs), opt_view(rhs)),
{
    match (lhs, rhs) {
        (Some(a), Some(b)) => {
            if b.len() < a.len() {
                let mut small = b;
                small.retain_in(&a);
                assert(small@ =~= a@.intersect(b@));
                Some(small)
            } else {
                let mut small = a;
                small.retain_in(&b);
                Some(small)
            }
        },
        _ => None,
    }
}

/// Relies on `Itertools::tree_reduce`: it combines all the items, each
/// neighbouring pair in order, and gives `None` for no items; since
/// `fallible_intersection` is associative, the result is the left-to-right
/// meet.
#[verifier::external_body]
fn tree_intersection(sets: Vec<Option<StringSet>>) -> (r: Option<Option<StringSet>>)
    ensures
        sets@.len() == 0 <==> r is None,
        r matches Some(x) ==> opt_view(x) == meet_all(opt_views(sets@)),
{
    sets.into_iter().tree_reduce(fallible_intersection)
}

/// Adds to `set` the paths of the records of `tags` under the names of
/// `names`.
pub fn union_helper(tags: &NameMap<RawTag>, names: &StringSet, set: &mut StringSet)
    requires
        tags.wf(),
    ensures
        final(set)@ == old(set)@.union(paths_of(tags@, names@)),
{
    let mut i: usize = 0;
    while i < names.len()
        invariant
            tags.wf(),
            i <= names.elems().len(),
            set@ == old(set)@.union(paths_of(tags@, names.elems().subrange(0, i as int).to_set())),
        decreases names.elems().len() - i,
    {
        let ghost prev = names.elems().subrange(0, i as int).to_set();
        let ghost next = names.elems().subrange(0, i + 1).to_set();
        let key = names.get(i);
        proof {
            assert(names.elems().subrange(0, i + 1) =~= names.elems().subrange(0, i as int).push(key@));
            crate::string_set::lemma_push_to_set(names.elems().subrange(0, i as int), key@);
        }
        match tags.get(key) {
            Some(rec) => {
                set.extend(rec.paths());
                assert forall|p: Seq<char>| paths_of(tags@, next).contains(p) <==> paths_of(tags@, prev).union(
                    rec@.paths,
                ).contains(p) by {
                    if paths_of(tags@, next).contains(p) {
                        let k = choose|k: Seq<char>| #[trigger] next.contains(k) && tags@.contains_key(k) && tags@[k]@.paths.contains(p);
                        if k != key@ {
                            assert(prev.contains(k));
                        }
                    }
                    if paths_of(tags@, prev).contains(p) {
                        let k = choose|k: Seq<char>| #[trigger] prev.contains(k) && tags@.contains_key(k) && tags@[k]@.paths.contains(p);
                        assert(next.contains(k));
                    }
                    if rec@.paths.contains(p) {
                        assert(next.contains(key@));
                    }
                }
                assert(paths_of(tags@, next) =~= paths_of(tags@, prev).union(rec@.paths));
            },
            None => {
                assert forall|p: Seq<char>| paths_of(tags@, next).contains(p) <==> paths_of(tags@, prev).contains(p) by {
                    if paths_of(tags@, next).contains(p) {
                        let k = choose|k: Seq<char>| #[trigger] next.contains(k) && tags@.contains_key(k) && tags@[k]@.paths.contains(p);
                        assert(prev.contains(k));
                    }
                    if paths_of(tags@, prev).contains(p) {
                        let k = choose|k: Seq<char>| #[trigger] prev.contains(k) && tags@.contains_key(k) && tags@[k]@.paths.contains(p);
                        assert(next.contains(k));
                    }
                }
                assert(paths_of(tags@, next) =~= paths_of(tags@, prev));
            },
        }
        i += 1;
    }
    assert(names.elems().subrange(0, names.elems().len() as int) =~= names.elems());
}

impl ResolvedTags {
    /// The paths of `tag` with those of every record of `tags` reachable from
    /// it through inclusions.
    pub fn union_at(tags: &NameMap<RawTag>, tag: &RawTag) -> (r: StringSet)
        requires
            tags.wf(),
        ensures
            r@ == union_of(tags@, tag@),
    {
        let names = reach_names(tags, tag.include_tags(), false);
        let mut set = StringSet::new();
        union_helper(tags, &names, &mut set);
        set.extend(tag.paths());
        assert(set@ =~= union_of(tags@, tag@));
        set
    }

    /// The root's paths with those of every tag reachable from it through
    /// inclusions.
    pub fn union(&self) -> (r: StringSet)
        requires
            self.wf(),
        ensures
            r@ == union_of(self.records(), self.root()),
    {
        ResolvedTags::union_at(&self.tags, &self.raw)
    }

    /// Whether `path` is in the union: membership follows inclusions all the
    /// way down, as the union does.
    pub fn contains(&self, path: &String) -> (r: bool)
        requires
            self.wf(),
        ensures
            r == union_of(self.records(), self.root()).contains(path@),
    {
        self.union().contains(path)
    }

    /// The root's paths with the paths common to the unions of all the tags
    /// the root includes directly.
    pub fn intersection(&self) -> (r: StringSet)
        requires
            self.wf(),
        ensures
            r@ == intersection_of(self.records(), self.root()),
    {
        let m = &self.tags;
        let inc = self.raw.include_tags();
        let mut sets: Vec<Option<StringSet>> = Vec::new();
        let mut i: usize = 0;
        while i < inc.len()
            invariant
                m.wf(),
                m@ == self.records(),
                inc@ == self.root().include_tags,
                i <= inc.elems().len(),
                sets@.len() == i,
                forall|j: int| 0 <= j < i ==> #[trigger] opt_view(sets@[j]) == if m@.contains_key(inc.elems()[j]) {
                    Some(union_of(m@, m@[inc.elems()[j]]@))
                } else {
                    None
                },
            decreases inc.elems().len() - i,
        {
            match m.get(inc.get(i)) {
                Some(rec) => sets.push(Some(ResolvedTags::union_at(m, rec))),
                None => sets.push(None),
            }
            i += 1;
        }
        let ghost views = opt_views(sets@);
        let n = sets.len();
        let reduced = tree_intersection(sets);
        let ghost red = reduced;
        let mut set = match reduced {
            Some(Some(s)) => s,
            _ => StringSet::new(),
        };
        set.extend(self.raw.paths());
        proof {
            let t = self.root();
            let inner = Set::new(
                |p: Seq<char>|
                    (exists|k: Seq<char>| #[trigger] t.include_tags.contains(k)) && forall|k: Seq<char>|
                        #[trigger] t.include_tags.contains(k) ==> m@.contains_key(k) && union_of(m@, m@[k]@).contains(p),
            );
            assert forall|j: int| 0 <= j < n implies #[trigger] views[j] == if m@.contains_key(inc.elems()[j]) {
                Some(union_of(m@, m@[inc.elems()[j]]@))
            } else {
                None
            } by {}
            if n == 0 {
                assert forall|k: Seq<char>| !t.include_tags.contains(k) by {
                    if t.include_tags.contains(k) {
                        let j = choose|j: int| 0 <= j < inc.elems().len() && inc.elems()[j] == k;
                    }
                }
                assert(inner =~= Set::<Seq<char>>::empty());
            } else {
                assert(views.len() == n);
                lemma_meet_all(views);
                assert(t.include_tags.contains(inc.elems()[0]));
                match red {
                    Some(Some(s)) => {
                        assert(meet_all(views) == Some(s@));
                        assert forall|p: Seq<char>| s@.contains(p) <==> inner.contains(p) by {
                            assert(meet_all(views)->0.contains(p) == s@.contains(p));
                            if s@.contains(p) {
                                assert forall|k: Seq<char>| #[trigger] t.include_tags.contains(k) implies m@.contains_key(k)
                                    && union_of(m@, m@[k]@).contains(p) by {
                                    let j = choose|j: int| 0 <= j < inc.elems().len() && inc.elems()[j] == k;
                                    assert(!(views[j] is None));
                                    assert(views[j]->0.contains(p));
                                }
                            }
                            if inner.contains(p) {
                                assert forall|j: int| 0 <= j < views.len() implies (#[trigger] views[j])->0.contains(p) by {
                                    assert(t.include_tags.contains(inc.elems()[j]));
                                }
                            }
                        }
                        assert(s@ =~= inner);
                    },
                    _ => {
                        let j = choose|j: int| 0 <= j < views.len() && #[trigger] views[j] is None;
                        assert(t.include_tags.contains(inc.elems()[j]));
                        assert(inner =~= Set::<Seq<char>>::empty());
                    },
                }
            }
        }
        assert(set@ =~= intersection_of(self.records(), self.root()));
        set
    }

    /// The tags the root includes and, from each of them, every tag reachable
    /// through inheritances.
    pub fn all_tags(&self) -> (r: StringSet)
        requires
            self.wf(),
        ensures
            r@ == reached(self.records(), self.root().include_tags, true),
    {
        reach_names(&self.tags, self.raw.include_tags(), true)
    }
}

/// A record that includes no tag has its own paths as its union.
pub proof fn lemma_union_without_includes(m: Map<Seq<char>, RawTag>, t: TagView)
    requires
        t.include_tags == Set::<Seq<char>>::empty(),
    ensures
        union_of(m, t) == t.paths,
{
    assert(reached(m, t.include_tags, false) =~= Set::<Seq<char>>::empty()) by {
        assert forall|x: Seq<char>| !crate::reach::reaches(m, t.include_tags, false, x) by {
            if crate::reach::reaches(m, t.include_tags, false, x) {
                let w = choose|w: Seq<Seq<char>>| #[trigger] crate::reach::walk_in(m, t.include_tags, false, w) && w.last() == x;
                assert(t.include_tags.contains(w[0]));
            }
        }
    }
    assert(paths_of(m, Set::<Seq<char>>::empty()) =~= Set::<Seq<char>>::empty());
    assert(union_of(m, t) =~= t.paths);
}

/// A path that neither the root nor any record of the mapping holds directly
/// is not in the union, so membership reports it absent; in particular once
/// it is untagged from the only tag that held it.
pub proof fn lemma_unheld_path_not_contained(m: Map<Seq<char>, RawTag>, t: TagView, p: Seq<char>)
    requires
        !t.paths.contains(p),
        forall|k: Seq<char>| #[trigger] m.contains_key(k) ==> !m[k]@.paths.contains(p),
    ensures
        !union_of(m, t).contains(p),
{
}

/// A record that includes no tag has its own paths as its intersection.
pub proof fn lemma_intersection_without_includes(m: Map<Seq<char>, RawTag>, t: TagView)
    requires
        t.include_tags == Set::<Seq<char>>::empty(),
    ensures
        intersection_of(m, t) == t.paths,
{
    assert(intersection_of(m, t) =~= t.paths);
}

impl ResolvedTags {
    /// Clears `path`: removes it from the record of every tag its metadata
    /// lists that the graph holds, and detaches all tags from the metadata.
    pub fn clear_path(&mut self, meta: &mut PathMetadata, path: &String)
        requires
            old(self).wf(),
        ensures
            final(self).wf(),
            final(self).root() == old(self).root(),
            final(self).records().dom() == old(self).records().dom(),
            forall|k: Seq<char>| #[trigger] final(self).records().contains_key(k) ==> final(self).records()[k]@ == if old(meta)@.contains(k) {
                old(self).records()[k]@.untagged(set![path@])
            } else {
                old(self).records()[k]@
            },
            final(meta)@ == Set::<Seq<char>>::empty(),
    {
        let keys = meta.tags();
        let mut i: usize = 0;
        while i < keys.len()
            invariant
                self.wf(),
                self.raw@ == old(self).raw@,
                keys@ == old(meta)@,
                i <= keys.elems().len(),
                self.tags@.dom() == old(self).tags@.dom(),
                forall|k: Seq<char>| #[trigger] self.tags@.contains_key(k) ==> self.tags@[k]@ == if keys.elems().subrange(0, i as int).contains(k) {
                    old(self).tags@[k]@.untagged(set![path@])
                } else {
                    old(self).tags@[k]@
                },
            decreases keys.elems().len() - i,
        {
            let key = keys.get(i);
            let ghost prefix = keys.elems().subrange(0, i as int);
            assert(keys.elems().subrange(0, i + 1) =~= prefix.push(key@));
            proof {
                crate::string_set::lemma_push_to_set(prefix, key@);
            }
            let ghost before = self.tags@;
            let found = match self.tags.get(key) {
                Some(rec) => {
                    let mut rec = rec.duplicate();
                    rec.untag_path(path);
                    Some(rec)
                },
                None => None,
            };
            let ghost pp = set![path@];
            if let Some(rec) = found {
                self.tags.insert(key.clone(), rec);
                assert(self.tags@.dom() =~= old(self).tags@.dom());
            }
            proof {
                assert forall|k: Seq<char>| #[trigger] self.tags@.contains_key(k) implies self.tags@[k]@ == if keys.elems().subrange(0, i + 1).contains(k) {
                    old(self).tags@[k]@.untagged(pp)
                } else {
                    old(self).tags@[k]@
                } by {
                    assert(keys.elems().subrange(0, i + 1).to_set().contains(k) == prefix.to_set().insert(key@).contains(k));
                    assert(before.contains_key(k));
                    if k != key@ {
                        assert(self.tags@[k] == before[k]);
                    } else {
                        assert(found is Some);
                        assert(old(self).tags@[k]@.untagged(pp).untagged(pp) == old(self).tags@[k]@.untagged(pp)) by {
                            assert(old(self).tags@[k]@.untagged(pp).untagged(pp).paths =~= old(self).tags@[k]@.untagged(pp).paths);
                        }
                    }
                }
            }
            i += 1;
        }
        proof {
            assert(keys.elems().subrange(0, keys.elems().len() as int) =~= keys.elems());
        }
        meta.clear();
    }
}

} // verus!
