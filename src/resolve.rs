//! Resolution of a tag graph: a depth-first walk from a root record over the
//! names it includes or inherits, against the records loaded so far.
//!
//! The walk needs records that only the tag store can provide. It stops with
//! a [`LoadRequest`] at the first name it has no answer for; the caller loads
//! that record, adds it to the cache, and resolves again. Once every name the
//! walk reaches has an answer, it ends with the resolved graph or a cycle.
//! A load that fails ends resolution with [`LoadRequest::fail`].

use linked_hash_set::LinkedHashSet;
use vstd::prelude::*;

use crate::chain::{chain_contains, chain_new, chain_of, chain_pop, chain_push, chain_to_vec};
use crate::error::{IoTagError, ResolveError, ResolvePath};
use crate::graph::ResolvedTags;
use crate::name_map::NameMap;
use crate::record::{RawTag, TagView};
use crate::string_set::{char_seqs, lemma_push_to_set, StringSet};

verus! {

/// What the store answered for a name: its record, or `None` when it holds
/// no record under that name.
pub type TagCache = NameMap<Option<RawTag>>;

/// The record a store answer stands for: a missing record is an empty one.
pub open spec fn record_of(cache: Map<Seq<char>, Option<RawTag>>, k: Seq<char>) -> TagView {
    match cache[k] {
        Some(r) => r@,
        None => TagView::empty(),
    }
}

/// Whether `b` is a name that the loaded record of `a` includes or inherits.
pub open spec fn edge(cache: Map<Seq<char>, Option<RawTag>>, a: Seq<char>, b: Seq<char>) -> bool {
    cache.contains_key(a) && record_of(cache, a).keys().contains(b)
}

/// Whether `w` is a chain of names that starts at a name the root refers to
/// and follows loaded records from each name to the next.
pub open spec fn is_walk(cache: Map<Seq<char>, Option<RawTag>>, root: TagView, w: Seq<Seq<char>>) -> bool {
    &&& w.len() > 0
    &&& root.keys().contains(w[0])
    &&& forall|i: int| 0 <= i < w.len() - 1 ==> #[trigger] edge(cache, w[i], w[i + 1])
}

/// Whether some walk from the root ends at `k`.
pub open spec fn reachable(cache: Map<Seq<char>, Option<RawTag>>, root: TagView, k: Seq<char>) -> bool {
    exists|w: Seq<Seq<char>>| #[trigger] is_walk(cache, root, w) && w.last() == k
}

/// Whether the last name of `w` occurs earlier in it.
pub open spec fn closes_cycle(w: Seq<Seq<char>>) -> bool {
    w.len() >= 2 && w.drop_last().contains(w.last())
}

/// Whether `tags` is the graph resolved from `root`: exactly the reachable
/// names, each with its loaded record, and no walk from the root repeats a
/// name.
pub open spec fn resolved_from(
    cache: Map<Seq<char>, Option<RawTag>>,
    root: TagView,
    tags: Map<Seq<char>, RawTag>,
) -> bool {
    &&& forall|k: Seq<char>| #[trigger] tags.contains_key(k) <==> reachable(cache, root, k)
    &&& forall|k: Seq<char>| #[trigger] tags.contains_key(k) ==> cache.contains_key(k) && tags[k]@ == record_of(cache, k)
    &&& forall|w: Seq<Seq<char>>| #[trigger] is_walk(cache, root, w) ==> w.no_duplicates()
}

/// A name the walk needs a record for, and the chain of names that led to it.
#[derive(Debug)]
pub struct LoadRequest {
    name: String,
    path: Vec<String>,
}

impl LoadRequest {
    #[verifier::type_invariant]
    spec fn ends_at_name(&self) -> bool {
        self.path@.len() > 0 && self.path@.last()@ == self.name@
    }

    /// The chain of names from the root's reference to the requested name.
    pub closed spec fn chain(&self) -> Seq<Seq<char>> {
        char_seqs(self.path@)
    }

    /// The name whose record is needed.
    pub fn name(&self) -> (r: &String)
        ensures
            r@ == self.chain().last(),
    {
        proof {
            use_type_invariant(self);
        }
        &self.name
    }

    /// The error when the requested record could not be loaded: the chain,
    /// ending with the requested name, and the cause.
    pub fn fail(self, source: IoTagError) -> (r: ResolveError)
        ensures
            r matches ResolveError::Load { path, source: s } && path@ == self.chain() && s == source,
    {
        ResolveError::Load { path: ResolvePath::new(self.path), source }
    }
}

/// The outcome of one resolution attempt.
#[derive(Debug)]
pub enum Resolution {
    /// Every reachable name had an answer and no walk repeats a name.
    Resolved(ResolvedTags),
    /// The record of a reachable name is needed.
    Load(LoadRequest),
    /// A walk from the root closes a cycle.
    Failed(ResolveError),
}

/// What `resolve` promises about its outcome.
pub open spec fn resolution_post(
    cache: Map<Seq<char>, Option<RawTag>>,
    root: TagView,
    r: Resolution,
) -> bool {
    match r {
        Resolution::Resolved(g) => g.wf() && g.root() == root && resolved_from(cache, root, g.records()),
        Resolution::Load(req) => is_walk(cache, root, req.chain()) && !cache.contains_key(req.chain().last()),
        Resolution::Failed(e) => e matches ResolveError::Cyclic { path } && is_walk(cache, root, path@)
            && closes_cycle(path@),
    }
}

/// The names the root refers to when `c` is empty, else those of the loaded
/// record of the last name of `c`.
spec fn tail_keys(cache: Map<Seq<char>, Option<RawTag>>, root: TagView, c: Seq<Seq<char>>) -> Set<Seq<char>> {
    if c.len() == 0 {
        root.keys()
    } else {
        record_of(cache, c.last()).keys()
    }
}

/// The resolution path: a walk without repeats through stored records.
spec fn chain_ok(cache: Map<Seq<char>, Option<RawTag>>, root: TagView, c: Seq<Seq<char>>) -> bool {
    &&& c.no_duplicates()
    &&& c.len() > 0 ==> is_walk(cache, root, c)
    &&& forall|j: int| 0 <= j < c.len() ==> #[trigger] cache.contains_key(c[j]) && cache[c[j]] is Some
}

/// The finished names: each reachable, with its loaded record, and each
/// referring only to names finished before it.
spec fn done_ok(cache: Map<Seq<char>, Option<RawTag>>, root: TagView, done: NameMap<RawTag>) -> bool {
    &&& done.wf()
    &&& forall|i: int| 0 <= i < done.names().len() ==> {
        &&& #[trigger] cache.contains_key(done.names()[i])
        &&& done@[done.names()[i]]@ == record_of(cache, done.names()[i])
        &&& record_of(cache, done.names()[i]).keys().subset_of(done.names().subrange(0, i).to_set())
        &&& reachable(cache, root, done.names()[i])
    }
}

/// Along a walk whose names all refer only to names finished earlier, the
/// names are finished and their positions strictly decrease.
proof fn lemma_walk_ranks(
    cache: Map<Seq<char>, Option<RawTag>>,
    root: TagView,
    names: Seq<Seq<char>>,
    w: Seq<Seq<char>>,
)
    requires
        names.no_duplicates(),
        root.keys().subset_of(names.to_set()),
        forall|i: int|
            0 <= i < names.len() ==> (#[trigger] record_of(cache, names[i])).keys().subset_of(
                names.subrange(0, i).to_set(),
            ),
        is_walk(cache, root, w),
    ensures
        forall|j: int| 0 <= j < w.len() ==> #[trigger] names.contains(w[j]),
        forall|j: int, k: int|
            0 <= j < k < w.len() ==> #[trigger] names.index_of(w[k]) < #[trigger] names.index_of(w[j]),
    decreases w.len(),
{
    let n = w.len() - 1;
    if n == 0 {
        assert(names.to_set().contains(w[0]));
    } else {
        let v = w.drop_last();
        assert forall|i: int| 0 <= i < v.len() - 1 implies #[trigger] edge(cache, v[i], v[i + 1]) by {
            assert(edge(cache, w[i], w[i + 1]));
        }
        lemma_walk_ranks(cache, root, names, v);
        let prev = w[n - 1];
        assert(v[n - 1] == prev);
        assert(names.contains(prev));
        let p = names.index_of(prev);
        let i = n - 1;
        assert(edge(cache, w[i], w[i + 1]));
        assert(names[p] == prev);
        assert(record_of(cache, names[p]).keys().contains(w[n]));
        assert(record_of(cache, names[p]).keys().subset_of(names.subrange(0, p).to_set()));
        assert(names.subrange(0, p).to_set().contains(w[n]));
        let q = choose|q: int| 0 <= q < p && names.subrange(0, p)[q] == w[n];
        assert(names[q] == w[n]);
        assert(names.contains(w[n]));
        assert(names.index_of(w[n]) == q);
        assert forall|j: int| 0 <= j < w.len() implies #[trigger] names.contains(w[j]) by {
            if j < n {
                assert(v[j] == w[j]);
            }
        }
        assert forall|j: int, k: int|
            0 <= j < k < w.len() implies #[trigger] names.index_of(w[k]) < #[trigger] names.index_of(
                w[j],
            ) by {
            assert(v[j] == w[j]);
            if k < n {
                assert(v[k] == w[k]);
            } else if j < n - 1 {
                assert(names.index_of(v[n - 1]) < names.index_of(v[j]));
            }
        }
    }
}

/// A resolution path without repeats through loaded names is no longer than
/// the cache, and one more name outside the path keeps it so.
proof fn lemma_chain_fits(cache: NameMap<Option<RawTag>>, c: Seq<Seq<char>>, k: Seq<char>)
    requires
        cache.wf(),
        c.no_duplicates(),
        !c.contains(k),
        cache@.contains_key(k),
        forall|j: int| 0 <= j < c.len() ==> #[trigger] cache@.contains_key(c[j]),
    ensures
        c.len() + 1 <= cache.names().len(),
{
    cache.lemma_names();
    let d = c.push(k);
    assert forall|i: int, j: int| 0 <= i < d.len() && 0 <= j < d.len() && i != j implies d[i] != d[j] by {
        if i < c.len() && j < c.len() {
            assert(c[i] != c[j]);
        } else if i < c.len() {
            assert(c.contains(c[i]));
        } else if j < c.len() {
            assert(c.contains(c[j]));
        }
    }
    d.unique_seq_to_set();
    assert forall|x: Seq<char>| d.to_set().contains(x) implies cache@.dom().contains(x) by {
        let j = choose|j: int| 0 <= j < d.len() && d[j] == x;
        if j < c.len() {
            assert(cache@.contains_key(c[j]));
        }
    }
    vstd::set_lib::lemma_len_subset(d.to_set(), cache@.dom());
}

/// Finishing a name whose references are all finished keeps the finished
/// names in order.
proof fn lemma_done_grows(
    cache: Map<Seq<char>, Option<RawTag>>,
    root: TagView,
    first: Seq<Seq<char>>,
    before: NameMap<RawTag>,
    after: NameMap<RawTag>,
    key: Seq<char>,
)
    requires
        done_ok(cache, root, before),
        first.is_prefix_of(before.names()),
        after.wf(),
        !before@.contains_key(key),
        after@ == before@.insert(key, after@[key]),
        after.names() == before.names().push(key),
        cache.contains_key(key),
        after@[key]@ == record_of(cache, key),
        record_of(cache, key).keys().subset_of(before@.dom()),
        reachable(cache, root, key),
    ensures
        done_ok(cache, root, after),
        first.is_prefix_of(after.names()),
{
    before.lemma_names();
    let n = before.names().len() as int;
    assert(after.names().subrange(0, n) =~= before.names());
    assert forall|i: int| 0 <= i < after.names().len() implies {
        &&& #[trigger] cache.contains_key(after.names()[i])
        &&& after@[after.names()[i]]@ == record_of(cache, after.names()[i])
        &&& record_of(cache, after.names()[i]).keys().subset_of(after.names().subrange(0, i).to_set())
        &&& reachable(cache, root, after.names()[i])
    } by {
        if i < n {
            assert(after.names()[i] == before.names()[i]);
            assert(after.names().subrange(0, i) =~= before.names().subrange(0, i));
            assert(before.names().contains(before.names()[i]));
            assert(before.names()[i] != key);
        } else {
            assert(after.names()[i] == key);
        }
    }
    assert(first =~= after.names().subrange(0, first.len() as int));
}

/// The chain `path` followed by `key`, as a vector.
fn extended(path: &LinkedHashSet<String>, key: &String) -> (r: Vec<String>)
    ensures
        char_seqs(r@) == chain_of(*path).push(key@),
{
    let mut v = chain_to_vec(path);
    let ghost before = v@;
    v.push(key.clone());
    assert(char_seqs(v@) =~= char_seqs(before).push(key@));
    v
}

/// Walks every name of `keys`, depth first. A name on the path closes a cycle;
/// a finished name is skipped; a name without an answer stops the walk; a
/// missing record is finished at once; a stored one stays on the path while
/// the names it refers to are walked, and is finished after them.
fn visit(
    cache: &TagCache,
    root: &RawTag,
    keys: &StringSet,
    path: &mut LinkedHashSet<String>,
    done: &mut NameMap<RawTag>,
) -> (r: Option<Resolution>)
    requires
        cache.wf(),
        chain_ok(cache@, root@, chain_of(*old(path))),
        keys@.subset_of(tail_keys(cache@, root@, chain_of(*old(path)))),
        done_ok(cache@, root@, *old(done)),
        forall|j: int|
            0 <= j < chain_of(*old(path)).len() ==> !(#[trigger] old(done)@.contains_key(
                chain_of(*old(path))[j],
            )),
        chain_of(*old(path)).len() <= cache.names().len(),
    ensures
        done_ok(cache@, root@, *final(done)),
        old(done).names().is_prefix_of(final(done).names()),
        r is None ==> {
            &&& chain_of(*final(path)) == chain_of(*old(path))
            &&& keys@.subset_of(final(done)@.dom())
            &&& forall|j: int|
                0 <= j < chain_of(*old(path)).len() ==> !(#[trigger] final(done)@.contains_key(
                    chain_of(*old(path))[j],
                ))
        },
        r matches Some(res) ==> res !is Resolved && resolution_post(cache@, root@, res),
    decreases cache.names().len() - chain_of(*old(path)).len(),
{
    let ghost c0 = chain_of(*path);
    let mut i: usize = 0;
    while i < keys.len()
        invariant
            cache.wf(),
            i <= keys.elems().len(),
            chain_of(*path) == c0,
            chain_of(*old(path)) == c0,
            chain_ok(cache@, root@, c0),
            keys@.subset_of(tail_keys(cache@, root@, c0)),
            done_ok(cache@, root@, *done),
            old(done).names().is_prefix_of(done.names()),
            forall|j: int| 0 <= j < i ==> #[trigger] done@.contains_key(keys.elems()[j]),
            forall|j: int| 0 <= j < c0.len() ==> !(#[trigger] done@.contains_key(c0[j])),
            c0.len() <= cache.names().len(),
        decreases keys.elems().len() - i,
    {
        let key = keys.get(i);
        let ghost d_it = *done;
        assert(keys@.contains(key@));
        let ghost w = c0.push(key@);
        assert(is_walk(cache@, root@, w)) by {
            assert(w[w.len() - 1] == key@);
            if c0.len() > 0 {
                assert forall|j: int| 0 <= j < w.len() - 1 implies #[trigger] edge(cache@, w[j], w[j + 1]) by {
                    if j < c0.len() - 1 {
                        assert(edge(cache@, c0[j], c0[j + 1]));
                    } else {
                        assert(w[j] == c0.last());
                        assert(cache@.contains_key(c0[j]));
                    }
                }
            }
        }
        if chain_contains(path, key) {
            let chain = extended(path, key);
            proof {
                let k = choose|k: int| 0 <= k < c0.len() && c0[k] == key@;
                assert(w.drop_last() =~= c0);
                assert(w.drop_last()[k] == w.last());
            }
            return Some(Resolution::Failed(ResolveError::Cyclic { path: ResolvePath::new(chain) }));
        }
        if !done.contains_key(key) {
            match cache.get(key) {
                None => {
                    let chain = extended(path, key);
                    let name = key.clone();
                    assert(chain@.last()@ == char_seqs(chain@)[chain@.len() - 1]);
                    return Some(Resolution::Load(LoadRequest { name, path: chain }));
                },
                Some(None) => {
                    let ghost d0 = *done;
                    done.insert_new(key.clone(), RawTag::empty());
                    proof {
                        assert(reachable(cache@, root@, key@)) by {
                            assert(w.last() == key@);
                        }
                        lemma_done_grows(cache@, root@, old(done).names(), d0, *done, key@);
                    }
                },
                Some(Some(rec)) => {
                    proof {
                        lemma_chain_fits(*cache, c0, key@);
                    }
                    chain_push(path, key.clone());
                    proof {
                        assert(chain_ok(cache@, root@, w)) by {
                            assert forall|a: int, b: int| 0 <= a < w.len() && 0 <= b < w.len() && a != b implies w[a] != w[b] by {
                                if a < c0.len() && b < c0.len() {
                                    assert(c0[a] != c0[b]);
                                } else if a < c0.len() {
                                    assert(c0.contains(c0[a]));
                                } else if b < c0.len() {
                                    assert(c0.contains(c0[b]));
                                }
                            }
                            assert forall|j: int| 0 <= j < w.len() implies #[trigger] cache@.contains_key(w[j]) && cache@[w[j]] is Some by {
                                if j < c0.len() {
                                    assert(cache@.contains_key(c0[j]) && cache@[c0[j]] is Some);
                                }
                            }
                        }
                        assert forall|j: int| 0 <= j < w.len() implies !(#[trigger] done@.contains_key(w[j])) by {
                            if j < c0.len() {
                                assert(!done@.contains_key(c0[j]));
                            }
                        }
                    }
                    let r1 = visit(cache, root, rec.include_tags(), path, done);
                    if r1.is_some() {
                        return r1;
                    }
                    let ghost d1 = *done;
                    let r2 = visit(cache, root, rec.inherited_tags(), path, done);
                    if r2.is_some() {
                        return r2;
                    }
                    proof {
                        d1.lemma_names();
                        done.lemma_names();
                        assert forall|x: Seq<char>| rec@.keys().contains(x) implies done@.contains_key(x) by {
                            if rec@.include_tags.contains(x) {
                                assert(d1@.contains_key(x));
                                let j = choose|j: int| 0 <= j < d1.names().len() && d1.names()[j] == x;
                                assert(done.names()[j] == x);
                                assert(done.names().contains(x));
                            }
                        }
                        assert(record_of(cache@, key@) == rec@);
                    }
                    chain_pop(path);
                    assert(w.drop_last() =~= c0);
                    proof {
                        assert(!done@.contains_key(w[c0.len() as int]));
                        done.lemma_names();
                    }
                    let ghost d0 = *done;
                    done.insert_new(key.clone(), rec.duplicate());
                    proof {
                        assert(reachable(cache@, root@, key@)) by {
                            assert(w.last() == key@);
                        }
                        lemma_done_grows(cache@, root@, old(done).names(), d0, *done, key@);
                    }
                },
            }
            proof {
                assert forall|j: int| 0 <= j < c0.len() implies !(#[trigger] done@.contains_key(c0[j])) by {
                    assert(c0[j] != key@);
                }
            }
        }
        proof {
            assert(d_it.names().is_prefix_of(done.names()));
            d_it.lemma_names();
            done.lemma_names();
            assert forall|j: int| 0 <= j < i + 1 implies #[trigger] done@.contains_key(keys.elems()[j]) by {
                if j < i {
                    let x = keys.elems()[j];
                    assert(d_it@.contains_key(x));
                    let q = choose|q: int| 0 <= q < d_it.names().len() && d_it.names()[q] == x;
                    assert(done.names()[q] == x);
                    assert(done.names().contains(x));
                } else {
                    assert(keys.elems()[j] == key@);
                }
            }
        }
        i += 1;
    }
    None
}

/// From finished names that cover the root's references, the resolved graph.
proof fn lemma_finished_graph(
    cache: Map<Seq<char>, Option<RawTag>>,
    root: TagView,
    done: NameMap<RawTag>,
)
    requires
        done_ok(cache, root, done),
        root.keys().subset_of(done@.dom()),
    ensures
        resolved_from(cache, root, done@),
{
    done.lemma_names();
    let names = done.names();
    assert forall|i: int| 0 <= i < names.len() implies (#[trigger] record_of(cache, names[i])).keys().subset_of(
        names.subrange(0, i).to_set(),
    ) by {
        assert(cache.contains_key(names[i]));
    }
    assert forall|w: Seq<Seq<char>>| #[trigger] is_walk(cache, root, w) implies w.no_duplicates()
        && names.contains(w.last()) by {
        lemma_walk_ranks(cache, root, names, w);
        assert(names.contains(w[w.len() - 1]));
        assert forall|a: int, b: int| 0 <= a < w.len() && 0 <= b < w.len() && a != b implies w[a] != w[b] by {
            if a < b {
                assert(names.index_of(w[b]) < names.index_of(w[a]));
            } else {
                assert(names.index_of(w[a]) < names.index_of(w[b]));
            }
        }
    }
    assert forall|k: Seq<char>| #[trigger] done@.contains_key(k) implies reachable(cache, root, k)
        && cache.contains_key(k) && done@[k]@ == record_of(cache, k) by {
        let i = choose|i: int| 0 <= i < names.len() && names[i] == k;
        assert(cache.contains_key(names[i]));
    }
    assert forall|k: Seq<char>| reachable(cache, root, k) implies #[trigger] done@.contains_key(k) by {
        let w = choose|w: Seq<Seq<char>>| #[trigger] is_walk(cache, root, w) && w.last() == k;
        assert(names.contains(w.last()));
    }
}

impl ResolvedTags {
    /// Resolves the graph of `raw` against the records loaded so far.
    ///
    /// Names are walked depth first, included ones before inherited ones, in
    /// the order of each set. The outcome is the resolved graph when every
    /// reachable name has an answer and no walk repeats a name; otherwise a
    /// walk to a name without an answer, or a walk that closes a cycle.
    pub fn resolve(raw: &RawTag, cache: &TagCache) -> (r: Resolution)
        requires
            cache.wf(),
        ensures
            resolution_post(cache@, raw@, r),
    {
        let mut path = chain_new();
        let mut done: NameMap<RawTag> = NameMap::new();
        assert(chain_of(path) =~= Seq::<Seq<char>>::empty());
        assert(tail_keys(cache@, raw@, chain_of(path)) == raw@.keys());
        let r1 = visit(cache, raw, raw.include_tags(), &mut path, &mut done);
        if let Some(res) = r1 {
            return res;
        }
        let ghost d1 = done;
        let r2 = visit(cache, raw, raw.inherited_tags(), &mut path, &mut done);
        if let Some(res) = r2 {
            return res;
        }
        proof {
            d1.lemma_names();
            done.lemma_names();
            assert forall|x: Seq<char>| raw@.keys().contains(x) implies done@.contains_key(x) by {
                if raw@.include_tags.contains(x) {
                    assert(d1@.contains_key(x));
                    let j = choose|j: int| 0 <= j < d1.names().len() && d1.names()[j] == x;
                    assert(done.names()[j] == x);
                    assert(done.names().contains(x));
                }
            }
            lemma_finished_graph(cache@, raw@, done);
        }
        Resolution::Resolved(ResolvedTags::from_parts(raw.duplicate(), done))
    }
}

/// Whether each name of `s` refers to the next one.
pub open spec fn links(cache: Map<Seq<char>, Option<RawTag>>, s: Seq<Seq<char>>) -> bool {
    forall|i: int| 0 <= i < s.len() - 1 ==> #[trigger] edge(cache, s[i], s[i + 1])
}

/// When no walk from the root repeats a name and every reachable name has an
/// answer, resolution succeeds, and every name that the root or a resolved
/// record includes or inherits is in the mapping.
pub proof fn lemma_acyclic_store_resolves(
    cache: Map<Seq<char>, Option<RawTag>>,
    root: TagView,
    r: Resolution,
)
    requires
        resolution_post(cache, root, r),
        forall|w: Seq<Seq<char>>| #[trigger] is_walk(cache, root, w) ==> w.no_duplicates(),
        forall|k: Seq<char>| #[trigger] reachable(cache, root, k) ==> cache.contains_key(k),
    ensures
        r is Resolved,
        r matches Resolution::Resolved(g) ==> {
            &&& root.keys().subset_of(g.records().dom())
            &&& forall|k: Seq<char>, b: Seq<char>|
                #[trigger] g.records().contains_key(k) && g.records()[k]@.keys().contains(b)
                    ==> #[trigger] g.records().contains_key(b)
        },
{
    match r {
        Resolution::Load(req) => {
            assert(reachable(cache, root, req.chain().last()));
        },
        Resolution::Failed(e) => {
            if let ResolveError::Cyclic { path } = e {
                let c = path@;
                let j = choose|j: int| 0 <= j < c.drop_last().len() && c.drop_last()[j] == c.last();
                assert(c[j] == c[c.len() - 1]);
                assert(c.no_duplicates());
            }
        },
        Resolution::Resolved(g) => {
            let m = g.records();
            assert forall|x: Seq<char>| root.keys().contains(x) implies m.contains_key(x) by {
                assert(is_walk(cache, root, seq![x]));
                assert(seq![x].last() == x);
            }
            assert forall|k: Seq<char>, b: Seq<char>|
                #[trigger] m.contains_key(k) && m[k]@.keys().contains(b) implies #[trigger] m.contains_key(b) by {
                let w = choose|w: Seq<Seq<char>>| #[trigger] is_walk(cache, root, w) && w.last() == k;
                let v = w.push(b);
                assert(edge(cache, k, b));
                assert forall|i: int| 0 <= i < v.len() - 1 implies #[trigger] edge(cache, v[i], v[i + 1]) by {
                    if i < w.len() - 1 {
                        assert(edge(cache, w[i], w[i + 1]));
                    }
                }
                assert(is_walk(cache, root, v));
                assert(v.last() == b);
            }
        },
    }
}

/// Whether positions `i` and `i + 1` of `s` hold `a` and `b`, in either order.
pub open spec fn next_to(s: Seq<Seq<char>>, i: int, a: Seq<char>, b: Seq<char>) -> bool {
    (s[i] == a && s[i + 1] == b) || (s[i] == b && s[i + 1] == a)
}

/// When tags `a` and `b` refer to each other, `a` is reachable, every
/// reachable name has an answer, and every cycle of the store runs only
/// between `a` and `b`, resolution fails with a cycle whose chain holds `a`
/// and `b` next to each other.
pub proof fn lemma_two_cycle_reported(
    cache: Map<Seq<char>, Option<RawTag>>,
    root: TagView,
    r: Resolution,
    a: Seq<char>,
    b: Seq<char>,
)
    requires
        resolution_post(cache, root, r),
        edge(cache, a, b),
        edge(cache, b, a),
        reachable(cache, root, a),
        forall|k: Seq<char>| #[trigger] reachable(cache, root, k) ==> cache.contains_key(k),
        forall|s: Seq<Seq<char>>|
            #[trigger] links(cache, s) && s.len() >= 2 && s[0] == s.last() ==> forall|i: int|
                0 <= i < s.len() - 1 ==> (s[i] == a && #[trigger] s[i + 1] == b) || (s[i] == b && s[i + 1] == a),
    ensures
        r matches Resolution::Failed(ResolveError::Cyclic { path }) && exists|i: int|
            0 <= i < path@.len() - 1 && #[trigger] next_to(path@, i, a, b),
{
    match r {
        Resolution::Load(req) => {
            assert(reachable(cache, root, req.chain().last()));
        },
        Resolution::Resolved(g) => {
            let w = choose|w: Seq<Seq<char>>| #[trigger] is_walk(cache, root, w) && w.last() == a;
            let v = w.push(b).push(a);
            assert forall|i: int| 0 <= i < v.len() - 1 implies #[trigger] edge(cache, v[i], v[i + 1]) by {
                if i < w.len() - 1 {
                    assert(edge(cache, w[i], w[i + 1]));
                } else if i == w.len() - 1 {
                    assert(v[i] == a && v[i + 1] == b);
                } else {
                    assert(v[i] == b && v[i + 1] == a);
                }
            }
            assert(is_walk(cache, root, v));
            assert(v[w.len() - 1] == v[w.len() as int + 1]);
        },
        Resolution::Failed(e) => {
            if let ResolveError::Cyclic { path } = e {
                let c = path@;
                let n = c.len() as int;
                let j = choose|j: int| 0 <= j < c.drop_last().len() && c.drop_last()[j] == c.last();
                let s = c.subrange(j, n);
                assert(s[0] == c[j]);
                assert(s.last() == c[n - 1]);
                assert forall|i: int| 0 <= i < s.len() - 1 implies #[trigger] edge(cache, s[i], s[i + 1]) by {
                    assert(s[i] == c[j + i]);
                    assert(s[i + 1] == c[j + i + 1]);
                    assert(edge(cache, c[j + i], c[j + i + 1]));
                }
                assert(links(cache, s));
                let i = n - 2 - j;
                assert(s[i] == c[n - 2]);
                assert(s[i + 1] == c[n - 1]);
                assert(0 <= n - 2 < c.len() - 1);
                assert(next_to(c, n - 2, a, b));
            }
        },
    }
}

} // verus!
