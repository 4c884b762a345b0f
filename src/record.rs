use vstd::prelude::*;

use crate::string_set::StringSet;

verus! {

/// What a tag record holds, as sets of character sequences.
pub struct TagView {
    pub include_tags: Set<Seq<char>>,
    pub inherited_tags: Set<Seq<char>>,
    pub paths: Set<Seq<char>>,
}

impl TagView {
    /// The record with nothing in it: a tag that is not stored.
    pub open spec fn empty() -> TagView {
        TagView {
            include_tags: Set::empty(),
            inherited_tags: Set::empty(),
            paths: Set::empty(),
        }
    }

    /// The names this record refers to: the ones it includes and the ones it
    /// inherits.
    pub open spec fn keys(self) -> Set<Seq<char>> {
        self.include_tags.union(self.inherited_tags)
    }

    /// Whether all three sets are empty.
    pub open spec fn is_empty(self) -> bool {
        self == TagView::empty()
    }

    /// The record with `paths` added to its own paths.
    pub open spec fn tagged(self, paths: Set<Seq<char>>) -> TagView {
        TagView { paths: self.paths.union(paths), ..self }
    }

    /// The record with `paths` removed from its own paths.
    pub open spec fn untagged(self, paths: Set<Seq<char>>) -> TagView {
        TagView { paths: self.paths.difference(paths), ..self }
    }
}

/// A tag as it is stored: the tags whose paths it includes, the tags its
/// paths inherit, and the paths tagged with it directly.
#[derive(Clone, Debug)]
pub struct RawTag {
    include_tags: StringSet,
    inherited_tags: StringSet,
    paths: StringSet,
}

impl View for RawTag {
    type V = TagView;

    closed spec fn view(&self) -> TagView {
        TagView {
            include_tags: self.include_tags@,
            inherited_tags: self.inherited_tags@,
            paths: self.paths@,
        }
    }
}

impl RawTag {
    /// A record made of the three sets.
    pub fn new(include_tags: StringSet, inherited_tags: StringSet, paths: StringSet) -> (r: RawTag)
        ensures
            r@ == (TagView { include_tags: include_tags@, inherited_tags: inherited_tags@, paths: paths@ }),
    {
        RawTag { include_tags, inherited_tags, paths }
    }

    /// The record of a query: it includes the given tags and holds nothing else.
    pub fn query(include_tags: StringSet) -> (r: RawTag)
        ensures
            r@ == (TagView { include_tags: include_tags@, ..TagView::empty() }),
    {
        RawTag { include_tags, inherited_tags: StringSet::new(), paths: StringSet::new() }
    }

    /// The empty record, which stands for a tag that is not stored.
    pub fn empty() -> (r: RawTag)
        ensures
            r@ == TagView::empty(),
    {
        RawTag { include_tags: StringSet::new(), inherited_tags: StringSet::new(), paths: StringSet::new() }
    }

    /// Whether the record holds nothing; such a record is not stored.
    pub fn is_empty(&self) -> (r: bool)
        ensures
            r == self@.is_empty(),
    {
        let r = self.include_tags.is_empty() && self.inherited_tags.is_empty() && self.paths.is_empty();
        assert(r ==> self@ =~= TagView::empty());
        r
    }

    /// The tags whose paths this tag includes.
    pub fn include_tags(&self) -> (r: &StringSet)
        ensures
            r@ == self@.include_tags,
    {
        &self.include_tags
    }

    /// The tags that this tag's paths inherit.
    pub fn inherited_tags(&self) -> (r: &StringSet)
        ensures
            r@ == self@.inherited_tags,
    {
        &self.inherited_tags
    }

    /// The paths tagged with this tag directly.
    pub fn paths(&self) -> (r: &StringSet)
        ensures
            r@ == self@.paths,
    {
        &self.paths
    }

    /// Tags the given paths with this tag.
    pub fn tag_paths(&mut self, paths: &StringSet)
        ensures
            final(self)@ == old(self)@.tagged(paths@),
    {
        self.paths.extend(paths);
    }

    /// Removes the given paths from this tag.
    pub fn untag_paths(&mut self, paths: &StringSet)
        ensures
            final(self)@ == old(self)@.untagged(paths@),
    {
        self.paths.remove_all(paths);
    }

    /// Removes one path from this tag.
    pub fn untag_path(&mut self, path: &String)
        ensures
            final(self)@ == old(self)@.untagged(set![path@]),
    {
        self.paths.remove(path);
        assert(self@.paths =~= old(self)@.paths.difference(set![path@]));
    }

    /// A copy of the record.
    pub fn duplicate(&self) -> (r: RawTag)
        ensures
            r@ == self@,
    {
        RawTag {
            include_tags: self.include_tags.duplicate(),
            inherited_tags: self.inherited_tags.duplicate(),
            paths: self.paths.duplicate(),
        }
    }
}

impl Default for RawTag {
    fn default() -> (r: RawTag)
        ensures
            r@ == TagView::empty(),
    {
        RawTag::empty()
    }
}

/// The tags attached to one path, kept beside that path.
#[derive(Clone, Debug)]
pub struct PathMetadata {
    tags: StringSet,
}

impl View for PathMetadata {
    type V = Set<Seq<char>>;

    closed spec fn view(&self) -> Set<Seq<char>> {
        self.tags@
    }
}

impl PathMetadata {
    /// The attached tags in the order they are listed.
    pub closed spec fn tag_order(&self) -> Seq<Seq<char>> {
        self.tags.elems()
    }

    /// Metadata listing the given tags.
    pub fn new(tags: StringSet) -> (r: PathMetadata)
        ensures
            r@ == tags@,
    {
        PathMetadata { tags }
    }

    /// The tags attached to the path.
    pub fn tags(&self) -> (r: &StringSet)
        ensures
            r@ == self@,
            r.elems() == self.tag_order(),
    {
        &self.tags
    }

    /// Whether no tag is attached; such metadata is not stored.
    pub fn is_empty(&self) -> (r: bool)
        ensures
            r <==> self@ == Set::<Seq<char>>::empty(),
    {
        self.tags.is_empty()
    }

    /// Attaches the given tags.
    pub fn tag(&mut self, tags: &StringSet)
        ensures
            final(self)@ == old(self)@.union(tags@),
    {
        self.tags.extend(tags);
    }

    /// Detaches every tag.
    pub fn clear(&mut self)
        ensures
            final(self)@ == Set::<Seq<char>>::empty(),
    {
        self.tags.clear();
    }

    /// Detaches the given tags.
    pub fn untag(&mut self, tags: &StringSet)
        ensures
            final(self)@ == old(self)@.difference(tags@),
    {
        self.tags.remove_all(tags);
    }
}

impl Default for PathMetadata {
    fn default() -> (r: PathMetadata)
        ensures
            r@ == Set::<Seq<char>>::empty(),
    {
        PathMetadata { tags: StringSet::new() }
    }
}

/// The union of two sets of names: the smaller is added to the larger.
pub fn set_union(lhs: StringSet, rhs: StringSet) -> (r: StringSet)
    ensures
        r@ == lhs@.union(rhs@),
{
    if lhs.len() >= rhs.len() {
        let mut r = lhs;
        r.extend(&rhs);
        r
    } else {
        let mut r = rhs;
        r.extend(&lhs);
        assert(r@ =~= lhs@.union(rhs@));
        r
    }
}

/// Tagging paths with a tag and then untagging them leaves none of those
/// paths in the tag's record and changes nothing else in it; attaching tags
/// to a path's metadata and then detaching them leaves none of those tags.
pub proof fn lemma_tag_untag_round_trip(
    t: TagView,
    paths: Set<Seq<char>>,
    meta: Set<Seq<char>>,
    tags: Set<Seq<char>>,
)
    ensures
        t.tagged(paths).untagged(paths).paths.disjoint(paths),
        t.tagged(paths).untagged(paths) == t.untagged(paths),
        meta.union(tags).difference(tags).disjoint(tags),
{
    assert(t.tagged(paths).untagged(paths) =~= t.untagged(paths)) by {
        assert(t.tagged(paths).untagged(paths).paths =~= t.untagged(paths).paths);
    }
}

/// A record that refers to no tag becomes empty, and is therefore removed
/// rather than stored, once all its paths are untagged; metadata becomes
/// empty, and is removed, once all its tags are detached.
pub proof fn lemma_untag_all_empties(t: TagView, paths: Set<Seq<char>>, meta: Set<Seq<char>>, tags: Set<Seq<char>>)
    requires
        t.include_tags == Set::<Seq<char>>::empty(),
        t.inherited_tags == Set::<Seq<char>>::empty(),
        t.paths.subset_of(paths),
        meta.subset_of(tags),
    ensures
        t.untagged(paths).is_empty(),
        meta.difference(tags) == Set::<Seq<char>>::empty(),
{
    assert(t.untagged(paths).paths =~= Set::<Seq<char>>::empty());
    assert(t.untagged(paths) =~= TagView::empty());
    assert(meta.difference(tags) =~= Set::<Seq<char>>::empty());
}

} // verus!
