use std::collections::HashMap;

use path_tagging::{
    IoTagError, NameMap, RawTag, ResolveError, ResolvedTags, Resolution, StringSet, TagCache,
};

fn set(items: &[&str]) -> StringSet {
    StringSet::from_vec(items.iter().map(|s| s.to_string()).collect())
}

fn sorted(s: &StringSet) -> Vec<String> {
    let mut v = s.to_vec();
    v.sort();
    v
}

fn tag(includes: &[&str], inherited: &[&str], paths: &[&str]) -> RawTag {
    RawTag::new(set(includes), set(inherited), set(paths))
}

/// Resolves `root` against `store`, answering each request from it; a name
/// that the store lacks has no record.
fn resolve_with(root: &RawTag, store: &HashMap<&str, RawTag>) -> Result<ResolvedTags, ResolveError> {
    let mut cache: TagCache = NameMap::new();
    for _ in 0..1000 {
        match ResolvedTags::resolve(root, &cache) {
            Resolution::Resolved(g) => return Ok(g),
            Resolution::Failed(e) => return Err(e),
            Resolution::Load(req) => {
                let name = req.name().clone();
                let record = store.get(name.as_str()).map(|t| t.duplicate());
                cache.insert(name, record);
            }
        }
    }
    panic!("resolution did not settle");
}

fn work_urgent_store() -> HashMap<&'static str, RawTag> {
    let mut store = HashMap::new();
    store.insert("work", tag(&[], &[], &["/a", "/b"]));
    store.insert("urgent", tag(&[], &[], &["/b", "/c"]));
    store
}

#[test]
fn work_urgent_intersection_and_union() {
    let store = work_urgent_store();
    let g = resolve_with(&RawTag::query(set(&["work", "urgent"])), &store).unwrap();
    assert_eq!(sorted(&g.intersection()), vec!["/b"]);
    assert_eq!(sorted(&g.union()), vec!["/a", "/b", "/c"]);
}

#[test]
fn intersection_ignores_include_order() {
    let store = work_urgent_store();
    let a = resolve_with(&RawTag::query(set(&["work", "urgent"])), &store).unwrap();
    let b = resolve_with(&RawTag::query(set(&["urgent", "work"])), &store).unwrap();
    assert_eq!(sorted(&a.intersection()), sorted(&b.intersection()));
    assert_eq!(sorted(&a.intersection()), vec!["/b"]);
}

#[test]
fn parent_child_all_tags() {
    let mut store = HashMap::new();
    store.insert("parent", tag(&[], &["child"], &[]));
    store.insert("child", tag(&[], &[], &["/x"]));
    let g = resolve_with(&RawTag::query(set(&["parent"])), &store).unwrap();
    assert_eq!(sorted(&g.all_tags()), vec!["child", "parent"]);
}

#[test]
fn union_without_includes_is_own_paths() {
    let store = HashMap::new();
    let root = tag(&[], &[], &["/p", "/q"]);
    let g = resolve_with(&root, &store).unwrap();
    assert_eq!(sorted(&g.union()), vec!["/p", "/q"]);
}

#[test]
fn intersection_without_includes_is_own_paths() {
    let store = HashMap::new();
    let root = tag(&[], &[], &["/p", "/q"]);
    let g = resolve_with(&root, &store).unwrap();
    assert_eq!(sorted(&g.intersection()), vec!["/p", "/q"]);
}

#[test]
fn acyclic_diamond_resolves_every_name() {
    let mut store = HashMap::new();
    store.insert("top", tag(&["left", "right"], &[], &["/t"]));
    store.insert("left", tag(&["bottom"], &[], &["/l"]));
    store.insert("right", tag(&["bottom"], &["side"], &["/r"]));
    store.insert("bottom", tag(&[], &[], &["/b"]));
    let g = resolve_with(&RawTag::query(set(&["top"])), &store).unwrap();
    let mut names: Vec<String> = (0..g.tags().len()).map(|i| g.tags().name_at(i).clone()).collect();
    names.sort();
    assert_eq!(names, vec!["bottom", "left", "right", "side", "top"]);
    assert!(g.tags().get(&"side".to_string()).unwrap().is_empty());
    assert_eq!(sorted(&g.union()), vec!["/b", "/l", "/r", "/t"]);
}

#[test]
fn two_cycle_is_reported_with_its_chain() {
    let mut store = HashMap::new();
    store.insert("a", tag(&["b"], &[], &[]));
    store.insert("b", tag(&["a"], &[], &[]));
    match resolve_with(&RawTag::query(set(&["a"])), &store) {
        Err(ResolveError::Cyclic { path }) => {
            assert_eq!(path.names(), &vec!["a".to_string(), "b".to_string(), "a".to_string()]);
        }
        other => panic!("expected a cycle, got {:?}", other.map(|_| ())),
    }
}

#[test]
fn inherited_cycle_is_reported() {
    let mut store = HashMap::new();
    store.insert("a", tag(&[], &["a"], &[]));
    match resolve_with(&RawTag::query(set(&["a"])), &store) {
        Err(ResolveError::Cyclic { path }) => {
            assert_eq!(path.names(), &vec!["a".to_string(), "a".to_string()]);
        }
        other => panic!("expected a cycle, got {:?}", other.map(|_| ())),
    }
}

#[test]
fn first_request_names_the_root_reference() {
    let cache: TagCache = NameMap::new();
    match ResolvedTags::resolve(&RawTag::query(set(&["x"])), &cache) {
        Resolution::Load(req) => assert_eq!(req.name(), "x"),
        _ => panic!("expected a load request"),
    }
}

#[test]
fn failed_load_carries_the_chain() {
    let mut cache: TagCache = NameMap::new();
    cache.insert("outer".to_string(), Some(tag(&["inner"], &[], &[])));
    match ResolvedTags::resolve(&RawTag::query(set(&["outer"])), &cache) {
        Resolution::Load(req) => {
            assert_eq!(req.name(), "inner");
            let cause = std::io::Error::new(std::io::ErrorKind::PermissionDenied, "denied");
            match req.fail(IoTagError::Io(cause)) {
                ResolveError::Load { path, source: IoTagError::Io(e) } => {
                    assert_eq!(path.names(), &vec!["outer".to_string(), "inner".to_string()]);
                    assert_eq!(e.kind(), std::io::ErrorKind::PermissionDenied);
                }
                other => panic!("unexpected error {:?}", other),
            }
        }
        _ => panic!("expected a load request"),
    }
}

#[test]
fn contains_follows_inclusions_transitively() {
    let mut store = HashMap::new();
    store.insert("a", tag(&["b"], &[], &[]));
    store.insert("b", tag(&[], &[], &["/deep"]));
    let g = resolve_with(&RawTag::query(set(&["a"])), &store).unwrap();
    assert!(g.contains(&"/deep".to_string()));
    assert!(!g.contains(&"/other".to_string()));
}

#[test]
fn intersection_with_missing_tag_keeps_only_own_paths() {
    let store = work_urgent_store();
    let root = tag(&["work", "nowhere"], &[], &["/own"]);
    let g = resolve_with(&root, &store).unwrap();
    assert_eq!(sorted(&g.intersection()), vec!["/own"]);
    assert_eq!(sorted(&g.union()), vec!["/a", "/b", "/own"]);
}

#[test]
fn intersection_uses_transitive_unions() {
    let mut store = HashMap::new();
    store.insert("x", tag(&["y"], &[], &["/1"]));
    store.insert("y", tag(&[], &[], &["/2"]));
    store.insert("z", tag(&[], &[], &["/2", "/3"]));
    let g = resolve_with(&RawTag::query(set(&["x", "z"])), &store).unwrap();
    assert_eq!(sorted(&g.intersection()), vec!["/2"]);
}

#[test]
fn union_at_collects_included_paths() {
    let mut tags: NameMap<RawTag> = NameMap::new();
    tags.insert("x".to_string(), tag(&[], &[], &["/x"]));
    let root = tag(&["x", "missing"], &[], &["/r"]);
    assert_eq!(sorted(&ResolvedTags::union_at(&tags, &root)), vec!["/r", "/x"]);
}

#[test]
fn tag_then_untag_round_trip() {
    let mut store = HashMap::new();
    let mut t = RawTag::empty();
    let paths = set(&["/file"]);
    t.tag_paths(&paths);
    store.insert("T", t.duplicate());
    let g = resolve_with(&RawTag::query(set(&["T"])), &store).unwrap();
    assert!(g.contains(&"/file".to_string()));

    t.untag_paths(&paths);
    assert!(!t.paths().contains(&"/file".to_string()));
    store.insert("T", t.duplicate());
    let g = resolve_with(&RawTag::query(set(&["T"])), &store).unwrap();
    assert!(!g.contains(&"/file".to_string()));
}

#[test]
fn emptied_record_is_removed() {
    let mut t = tag(&[], &[], &["/only"]);
    assert!(!t.is_empty());
    t.untag_path(&"/only".to_string());
    assert!(t.is_empty());
}

#[test]
fn record_with_references_is_kept() {
    let mut t = tag(&["other"], &[], &["/only"]);
    t.untag_paths(&set(&["/only"]));
    assert!(!t.is_empty());
    assert!(!RawTag::query(set(&["q"])).is_empty());
    assert!(RawTag::default().is_empty());
}

#[test]
fn clear_path_removes_it_from_listed_tags() {
    let mut store = HashMap::new();
    store.insert("a", tag(&[], &[], &["/p", "/q"]));
    store.insert("b", tag(&[], &[], &["/p"]));
    let mut g = resolve_with(&RawTag::query(set(&["a", "b"])), &store).unwrap();
    let mut meta = path_tagging::PathMetadata::new(set(&["a"]));
    g.clear_path(&mut meta, &"/p".to_string());
    assert!(meta.is_empty());
    assert_eq!(sorted(g.tags().get(&"a".to_string()).unwrap().paths()), vec!["/q"]);
    assert_eq!(sorted(g.tags().get(&"b".to_string()).unwrap().paths()), vec!["/p"]);
}
