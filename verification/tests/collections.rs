use falcon::children::{add_node, drop_path, has_path, set_size};
use falcon::collection::{PathMap, PathSet};
use falcon::path::{FsPath, PathPart};
use falcon::tree::Node;

fn path(name: &str) -> FsPath {
    FsPath { parts: vec![PathPart::Root, PathPart::Name(name.as_bytes().to_vec())] }
}

fn node(name: &str, size: u64) -> Node {
    Node { name: name.to_string(), path: path(name), size, is_dir: false }
}

#[test]
fn a_map_keeps_one_value_for_each_path() {
    let mut map: PathMap<u64> = PathMap::new();
    map.add(path("a"), 1);
    map.add(path("b"), 2);
    assert_eq!(map.len(), 2);
    let at = map.position(&path("a")).unwrap();
    assert_eq!(*map.key(at), path("a"));
    assert_eq!(map.replace(at, 5), 1);
    assert_eq!(*map.value(at), 5);
    map.remove_at(at);
    assert!(!map.contains(&path("a")));
    assert!(map.contains(&path("b")));
    map.clear();
    assert_eq!(map.len(), 0);
    assert_eq!(map.position(&path("b")), None);
}

#[test]
fn a_set_holds_a_path_once() {
    let mut set = PathSet::new();
    assert!(set.is_empty());
    set.insert(path("a"));
    set.insert(path("a"));
    assert!(set.contains(&path("a")));
    set.remove(&path("a"));
    assert!(!set.contains(&path("a")));
    assert!(set.is_empty());
    set.insert(path("b"));
    set.clear();
    assert!(set.is_empty());
}

#[test]
fn lists_take_an_entry_once_and_stay_in_order() {
    let mut list = Vec::new();
    assert!(add_node(&mut list, node("b", 1)));
    assert!(add_node(&mut list, node("A", 2)));
    assert!(!add_node(&mut list, node("b", 3)));
    assert!(has_path(&list, &path("b")));
    assert!(!has_path(&list, &path("c")));
    let sizes: Vec<u64> = list.iter().map(|n| n.size).collect();
    assert_eq!(sizes, [2, 1]);
    set_size(&mut list, &path("b"), 9);
    let sizes: Vec<u64> = list.iter().map(|n| n.size).collect();
    assert_eq!(sizes, [2, 9]);
    drop_path(&mut list, &path("A"));
    let names: Vec<&str> = list.iter().map(|n| n.name.as_str()).collect();
    assert_eq!(names, ["b"]);
}
