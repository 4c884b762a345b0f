//! Names reachable in a resolved mapping along one kind of reference.

use vstd::prelude::*;

use crate::name_map::NameMap;
use crate::record::{RawTag, TagView};
use crate::string_set::{char_seqs, lemma_push_to_set, StringSet};

verus! {

/// The names a record refers to by inclusion, or by inheritance.
pub open spec fn refs(t: TagView, inherited: bool) -> Set<Seq<char>> {
    if inherited {
        t.inherited_tags
    } else {
        t.include_tags
    }
}

/// Whether `a` has a record in `m` that refers to `b`.
pub open spec fn step(m: Map<Seq<char>, RawTag>, a: Seq<char>, b: Seq<char>, inherited: bool) -> bool {
    m.contains_key(a) && refs(m[a]@, inherited).contains(b)
}

/// Whether `w` starts in `start` and follows references from each name to
/// the next.
pub open spec fn walk_in(
    m: Map<Seq<char>, RawTag>,
    start: Set<Seq<char>>,
    inherited: bool,
    w: Seq<Seq<char>>,
) -> bool {
    &&& w.len() > 0
    &&& start.contains(w[0])
    &&& forall|i: int| 0 <= i < w.len() - 1 ==> #[trigger] step(m, w[i], w[i + 1], inherited)
}

/// Whether some walk from `start` ends at `x`.
pub open spec fn reaches(
    m: Map<Seq<char>, RawTag>,
    start: Set<Seq<char>>,
    inherited: bool,
    x: Seq<char>,
) -> bool {
    exists|w: Seq<Seq<char>>| #[trigger] walk_in(m, start, inherited, w) && w.last() == x
}

/// The names reachable from `start`.
pub open spec fn reached(m: Map<Seq<char>, RawTag>, start: Set<Seq<char>>, inherited: bool) -> Set<
    Seq<char>,
> {
    Set::new(|x: Seq<char>| reaches(m, start, inherited, x))
}

/// A set that holds `start` and, for each of its names with a record, the
/// names that record refers to, holds every reachable name.
proof fn lemma_closed_holds_reached(
    m: Map<Seq<char>, RawTag>,
    start: Set<Seq<char>>,
    inherited: bool,
    s: Set<Seq<char>>,
    w: Seq<Seq<char>>,
)
    requires
        start.subset_of(s),
        forall|k: Seq<char>| #[trigger] s.contains(k) && m.contains_key(k) ==> refs(m[k]@, inherited).subset_of(s),
        walk_in(m, start, inherited, w),
    ensures
        s.contains(w.last()),
    decreases w.len(),
{
    if w.len() > 1 {
        let v = w.drop_last();
        assert forall|i: int| 0 <= i < v.len() - 1 implies #[trigger] step(m, v[i], v[i + 1], inherited) by {
            assert(step(m, w[i], w[i + 1], inherited));
        }
        lemma_closed_holds_reached(m, start, inherited, s, v);
        let i = w.len() - 2;
        assert(step(m, w[i], w[i + 1], inherited));
        assert(s.contains(w[i]));
    }
}

/// The names reachable from `start` in `m`, along inclusions or, with
/// `inherited`, along inheritances. Each name is expanded once.
pub fn reach_names(m: &NameMap<RawTag>, start: &StringSet, inherited: bool) -> (r: StringSet)
    requires
        m.wf(),
    ensures
        r@ == reached(m@, start@, inherited),
{
    proof {
        m.lemma_names();
    }
    let mut seen = StringSet::new();
    let mut work: Vec<String> = start.to_vec();
    let ghost dom = m@.dom();
    proof {
        assert forall|j: int| 0 <= j < work@.len() implies reaches(m@, start@, inherited, #[trigger] char_seqs(work@)[j]) by {
            let x = char_seqs(work@)[j];
            assert(start.elems()[j] == x);
            assert(start@.contains(x));
            assert(walk_in(m@, start@, inherited, seq![x]));
            assert(seq![x].last() == x);
        }
        assert(start@ =~= char_seqs(work@).to_set());
    }
    while work.len() > 0
        invariant
            m.wf(),
            dom == m@.dom(),
            dom.finite(),
            dom.len() == m.names().len(),
            start@.subset_of(seen@.union(char_seqs(work@).to_set())),
            forall|x: Seq<char>| #[trigger] seen@.contains(x) ==> reaches(m@, start@, inherited, x),
            forall|j: int| 0 <= j < work@.len() ==> reaches(m@, start@, inherited, #[trigger] char_seqs(work@)[j]),
            forall|k: Seq<char>|
                #[trigger] seen@.contains(k) && m@.contains_key(k) ==> refs(m@[k]@, inherited).subset_of(
                    seen@.union(char_seqs(work@).to_set()),
                ),
            seen@.finite(),
        decreases dom.len() - seen@.intersect(dom).len(), work@.len(),
    {
        let ghost seen0 = seen@;
        let ghost work0 = char_seqs(work@);
        let k = work.pop().unwrap();
        assert(work0 =~= char_seqs(work@).push(k@));
        proof {
            lemma_push_to_set(char_seqs(work@), k@);
            assert(work0[work0.len() - 1] == k@);
            assert(reaches(m@, start@, inherited, k@));
            vstd::set_lib::lemma_len_intersect(seen0, dom);
            assert forall|j: int| 0 <= j < work@.len() implies reaches(m@, start@, inherited, #[trigger] char_seqs(work@)[j]) by {
                assert(char_seqs(work@)[j] == work0[j]);
            }
        }
        if !seen.contains(&k) {
            seen.insert(k.clone());
            proof {
                assert(seen@.intersect(dom) =~= if dom.contains(k@) {
                    seen0.intersect(dom).insert(k@)
                } else {
                    seen0.intersect(dom)
                });
                vstd::set_lib::lemma_len_subset(seen@.intersect(dom), dom);
                vstd::set_lib::lemma_len_intersect(seen@, dom);
            }
            match m.get(&k) {
                None => {},
                Some(rec) => {
                    let next = if inherited {
                        rec.inherited_tags()
                    } else {
                        rec.include_tags()
                    };
                    let ghost w0 = char_seqs(work@);
                    let mut i: usize = 0;
                    while i < next.len()
                        invariant
                            i <= next.elems().len(),
                            next@ == refs(m@[k@]@, inherited),
                            m@.contains_key(k@),
                            reaches(m@, start@, inherited, k@),
                            char_seqs(work@).to_set() == w0.to_set().union(
                                next.elems().subrange(0, i as int).to_set(),
                            ),
                            forall|j: int|
                                0 <= j < work@.len() ==> reaches(m@, start@, inherited, #[trigger] char_seqs(work@)[j]),
                        decreases next.elems().len() - i,
                    {
                        let ghost before = char_seqs(work@);
                        let name = next.get(i).clone();
                        proof {
                            let x = name@;
                            assert(next@.contains(x));
                            let w = choose|w: Seq<Seq<char>>| #[trigger] walk_in(m@, start@, inherited, w) && w.last() == k@;
                            let v = w.push(x);
                            assert forall|j: int| 0 <= j < v.len() - 1 implies #[trigger] step(m@, v[j], v[j + 1], inherited) by {
                                if j < w.len() - 1 {
                                    assert(step(m@, w[j], w[j + 1], inherited));
                                }
                            }
                            assert(walk_in(m@, start@, inherited, v));
                            assert(v.last() == x);
                        }
                        let ghost x = name@;
                        work.push(name);
                        assert(char_seqs(work@) =~= before.push(next.elems()[i as int]));
                        assert forall|j: int| 0 <= j < work@.len() implies reaches(m@, start@, inherited, #[trigger] char_seqs(work@)[j]) by {
                            if j < before.len() {
                                assert(char_seqs(work@)[j] == before[j]);
                            } else {
                                assert(char_seqs(work@)[j] == x);
                            }
                        }
                        proof {
                            lemma_push_to_set(before, next.elems()[i as int]);
                            assert(next.elems().subrange(0, i + 1) =~= next.elems().subrange(0, i as int).push(next.elems()[i as int]));
                            lemma_push_to_set(next.elems().subrange(0, i as int), next.elems()[i as int]);
                        }
                        i += 1;
                    }
                    assert(next.elems().subrange(0, next.elems().len() as int) =~= next.elems());
                },
            }
        }
        proof {
            assert forall|x: Seq<char>| start@.contains(x) implies seen@.union(char_seqs(work@).to_set()).contains(x) by {
                assert(seen0.union(work0.to_set()).contains(x));
            }
            assert forall|kk: Seq<char>| #[trigger] seen@.contains(kk) && m@.contains_key(kk) implies refs(m@[kk]@, inherited).subset_of(
                seen@.union(char_seqs(work@).to_set())) by {
                if kk != k@ {
                    assert(seen0.contains(kk));
                    assert forall|y: Seq<char>| refs(m@[kk]@, inherited).contains(y) implies seen@.union(char_seqs(work@).to_set()).contains(y) by {
                        assert(seen0.union(work0.to_set()).contains(y));
                    }
                }
            }
        }
    }
    proof {
        assert(char_seqs(work@).to_set() =~= Set::<Seq<char>>::empty());
        assert forall|x: Seq<char>| reaches(m@, start@, inherited, x) implies seen@.contains(x) by {
            let w = choose|w: Seq<Seq<char>>| #[trigger] walk_in(m@, start@, inherited, w) && w.last() == x;
            lemma_closed_holds_reached(m@, start@, inherited, seen@, w);
        }
    }
    assert(seen@ =~= reached(m@, start@, inherited));
    seen
}

} // verus!
