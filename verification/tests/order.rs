use falcon::order::{sort_children, sort_children_by};
use falcon::path::{FsPath, PathPart};
use falcon::tree::Node;

fn node(name: &str, is_dir: bool, size: u64) -> Node {
    let parts = vec![PathPart::Root, PathPart::Name(name.as_bytes().to_vec())];
    Node { name: name.to_string(), path: FsPath { parts }, size, is_dir }
}

fn names(list: &[Node]) -> Vec<String> {
    list.iter().map(|n| n.name.clone()).collect()
}

#[test]
fn directories_come_first() {
    let mut list = vec![node("a", false, 1), node("z", true, 0), node("b", false, 2), node("y", true, 0)];
    sort_children(&mut list);
    assert_eq!(names(&list), ["y", "z", "a", "b"]);
}

#[test]
fn case_does_not_matter() {
    let mut list = vec![node("beta", false, 1), node("Alpha", false, 1), node("GAMMA", false, 1)];
    sort_children(&mut list);
    assert_eq!(names(&list), ["Alpha", "beta", "GAMMA"]);
}

#[test]
fn case_does_not_matter_beyond_ascii() {
    let mut list = vec![node("\u{c9}b", false, 1), node("\u{e9}a", false, 1), node("zz", false, 1)];
    sort_children(&mut list);
    assert_eq!(names(&list), ["zz", "\u{e9}a", "\u{c9}b"]);
}

#[test]
fn alike_names_keep_their_order() {
    let mut list = vec![node("B", false, 1), node("a", false, 2), node("b", false, 3), node("A", false, 4)];
    sort_children(&mut list);
    let sizes: Vec<u64> = list.iter().map(|n| n.size).collect();
    assert_eq!(sizes, [2, 4, 1, 3]);
}

#[test]
fn a_prefix_comes_before_the_longer_name() {
    let mut list = vec![node("ab", false, 1), node("a", false, 1), node("", false, 1)];
    sort_children(&mut list);
    assert_eq!(names(&list), ["", "a", "ab"]);
}

#[test]
fn sorting_twice_is_sorting_once() {
    let mut list = vec![node("c", false, 1), node("B", true, 1), node("a", false, 1)];
    sort_children(&mut list);
    let once = list.clone();
    sort_children(&mut list);
    assert_eq!(list, once);
}

#[test]
fn given_names_decide() {
    let mut list = vec![node("a", false, 1), node("b", false, 2), node("c", true, 3)];
    sort_children_by(&mut list, vec!["2".to_string(), "1".to_string(), "9".to_string()]);
    assert_eq!(names(&list), ["c", "b", "a"]);
}

#[test]
fn agrees_with_the_standard_sort() {
    let mut seed: u64 = 9;
    for _ in 0..200 {
        let mut list: Vec<Node> = Vec::new();
        for k in 0..(seed % 23) {
            seed = seed.wrapping_mul(6_364_136_223_846_793_005).wrapping_add(1_442_695_040_888_963_407);
            let letters = ["a", "B", "b", "\u{c4}", "\u{e4}", "z", "Z", "\u{1f600}"];
            let name = format!("{}{}", letters[(seed >> 40) as usize % 8], letters[(seed >> 50) as usize % 8]);
            list.push(node(&name, (seed >> 33) % 2 == 0, k));
        }
        let mut expected = list.clone();
        expected.sort_by_key(|n| (!n.is_dir, n.name.to_lowercase()));
        sort_children(&mut list);
        assert_eq!(list, expected);
        seed = seed.wrapping_add(77);
    }
}
