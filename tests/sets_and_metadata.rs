use path_tagging::graph::fallible_intersection;
use path_tagging::record::set_union;
use path_tagging::sidecar::split_lines;
use path_tagging::{NameMap, PathMetadata, StringSet};

fn set(items: &[&str]) -> StringSet {
    StringSet::from_vec(items.iter().map(|s| s.to_string()).collect())
}

fn sorted(s: &StringSet) -> Vec<String> {
    let mut v = s.to_vec();
    v.sort();
    v
}

#[test]
fn string_set_keeps_members_once() {
    let mut s = StringSet::new();
    assert!(s.is_empty());
    assert!(s.insert("a".to_string()));
    assert!(!s.insert("a".to_string()));
    assert!(s.insert("b".to_string()));
    assert_eq!(s.len(), 2);
    assert!(s.contains(&"a".to_string()));
    assert!(s.remove(&"a".to_string()));
    assert!(!s.remove(&"a".to_string()));
    assert_eq!(s.to_vec(), vec!["b"]);
}

#[test]
fn from_vec_drops_repeats_and_keeps_order() {
    let s = StringSet::from_vec(vec!["b".into(), "a".into(), "b".into()]);
    assert_eq!(s.to_vec(), vec!["b", "a"]);
}

#[test]
fn set_union_holds_both() {
    let u = set_union(set(&["a", "b"]), set(&["b", "c", "d"]));
    assert_eq!(sorted(&u), vec!["a", "b", "c", "d"]);
}

#[test]
fn set_difference_and_intersection() {
    let mut s = set(&["a", "b", "c"]);
    s.remove_all(&set(&["b", "z"]));
    assert_eq!(sorted(&s), vec!["a", "c"]);
    let mut t = set(&["a", "b", "c"]);
    t.retain_in(&set(&["c", "a", "q"]));
    assert_eq!(sorted(&t), vec!["a", "c"]);
}

#[test]
fn fallible_intersection_absent_when_either_is() {
    assert!(fallible_intersection(None, Some(set(&["a"]))).is_none());
    assert!(fallible_intersection(Some(set(&["a"])), None).is_none());
    let r = fallible_intersection(Some(set(&["a", "b", "c"])), Some(set(&["b"]))).unwrap();
    assert_eq!(sorted(&r), vec!["b"]);
}

#[test]
fn name_map_replaces_values() {
    let mut m: NameMap<u32> = NameMap::new();
    m.insert("a".to_string(), 1);
    m.insert("b".to_string(), 2);
    m.insert("a".to_string(), 3);
    assert_eq!(m.len(), 2);
    assert_eq!(m.get(&"a".to_string()), Some(&3));
    assert!(!m.contains_key(&"c".to_string()));
}

#[test]
fn metadata_tag_and_untag_round_trip() {
    let mut meta = PathMetadata::default();
    let tags = set(&["T"]);
    meta.tag(&tags);
    assert!(meta.tags().contains(&"T".to_string()));
    meta.untag(&tags);
    assert!(!meta.tags().contains(&"T".to_string()));
    assert!(meta.is_empty());
    assert_eq!(meta.contents(), None);
}

#[test]
fn metadata_contents_one_name_per_line() {
    let meta = PathMetadata::new(set(&["work", "urgent"]));
    assert_eq!(meta.contents(), Some("work\nurgent".to_string()));
    let single = PathMetadata::new(set(&["solo"]));
    assert_eq!(single.contents(), Some("solo".to_string()));
}

#[test]
fn metadata_parse_reads_lines() {
    let meta = PathMetadata::parse("work\r\nurgent\nwork\n");
    assert_eq!(sorted(meta.tags()), vec!["urgent", "work"]);
    assert!(PathMetadata::parse("").is_empty());
}

#[test]
fn split_lines_edges() {
    assert_eq!(split_lines(""), Vec::<String>::new());
    assert_eq!(split_lines("\n"), vec![""]);
    assert_eq!(split_lines("a\n\nb"), vec!["a", "", "b"]);
    assert_eq!(split_lines("a\r\nb\r"), vec!["a", "b\r"]);
}

#[test]
fn metadata_round_trips_through_text() {
    let meta = PathMetadata::new(set(&["x", "y z"]));
    let text = meta.contents().unwrap();
    assert_eq!(sorted(PathMetadata::parse(&text).tags()), vec!["x", "y z"]);
}

#[test]
fn sidecar_location() {
    assert_eq!(PathMetadata::resolve("/data/file.txt", true), "/data/file.txt.tag.list");
    assert_eq!(PathMetadata::resolve("/data/dir", false), "/data/dir/.tag.list");
}
