use falcon::path::{explored_path, normalize_path, FsPath, PathPart};

fn path(names: &[&str]) -> FsPath {
    let mut parts = vec![PathPart::Root];
    for name in names {
        parts.push(PathPart::Name(name.as_bytes().to_vec()));
    }
    FsPath { parts }
}

#[test]
fn bare_drive_gets_its_root() {
    assert_eq!(normalize_path("C:".to_string()), "C:\\");
    assert_eq!(normalize_path("::".to_string()), "::\\");
}

#[test]
fn other_paths_stay() {
    for text in ["", ":", "/", "C:\\", "C:/", "/mnt", "ab:", "\u{e9}:", "CC"] {
        assert_eq!(normalize_path(text.to_string()), text);
    }
}

#[test]
fn normalizing_twice_is_normalizing_once() {
    let once = normalize_path("D:".to_string());
    assert_eq!(normalize_path(once.clone()), once);
}

#[test]
fn parents() {
    assert_eq!(path(&["a", "b"]).parent(), Some(path(&["a"])));
    assert_eq!(path(&["a"]).parent(), Some(path(&[])));
    assert_eq!(path(&[]).parent(), None);
    assert_eq!(FsPath { parts: vec![] }.parent(), None);
    let drive = FsPath { parts: vec![PathPart::Prefix(b"C:".to_vec())] };
    assert_eq!(drive.parent(), None);
    let up = FsPath { parts: vec![PathPart::Up] };
    assert_eq!(up.parent(), Some(FsPath { parts: vec![] }));
    let here = FsPath { parts: vec![PathPart::Current] };
    assert_eq!(here.parent(), Some(FsPath { parts: vec![] }));
}

#[test]
fn child_and_parent() {
    let dir = path(&["a"]);
    let child = dir.child(&b"b".to_vec());
    assert_eq!(child, path(&["a", "b"]));
    assert_eq!(child.parent(), Some(dir));
    assert_eq!(child.len(), 3);
}

#[test]
fn prefixes_go_by_component() {
    assert!(path(&["a", "b"]).starts_with(&path(&["a"])));
    assert!(path(&["a"]).starts_with(&path(&["a"])));
    assert!(!path(&["ab"]).starts_with(&path(&["a"])));
    assert!(!path(&["a"]).starts_with(&path(&["a", "b"])));
}

#[test]
fn sameness() {
    assert!(path(&["a"]).same(&path(&["a"]).clone()));
    assert!(!path(&["a"]).same(&path(&["A"])));
    assert!(!path(&["a"]).same(&path(&["a", "b"])));
    assert!(PathPart::Up.same(&PathPart::Up));
    assert!(!PathPart::Up.same(&PathPart::Current));
    assert!(!PathPart::Name(b"C:".to_vec()).same(&PathPart::Prefix(b"C:".to_vec())));
}

#[test]
fn a_bare_drive_is_explored_from_its_root() {
    let drive = FsPath { parts: vec![PathPart::Prefix(b"C:".to_vec())] };
    let explored = explored_path(&drive, "C:".to_string(), true);
    assert_eq!(explored.parts, [PathPart::Prefix(b"C:".to_vec()), PathPart::Root]);
    let rooted = FsPath { parts: vec![PathPart::Prefix(b"C:".to_vec()), PathPart::Root] };
    assert_eq!(explored_path(&rooted, "C:\\".to_string(), true), rooted);
    // A name that looks like a drive.
    let name = FsPath { parts: vec![PathPart::Name(b"1:".to_vec())] };
    assert_eq!(explored_path(&name, "1:".to_string(), true), name);
}

#[test]
fn a_backslash_can_belong_to_the_name() {
    let name = FsPath { parts: vec![PathPart::Name(b"C:".to_vec())] };
    let explored = explored_path(&name, "C:".to_string(), false);
    assert_eq!(explored.parts, [PathPart::Name(b"C:\\".to_vec())]);
    let below = FsPath { parts: vec![PathPart::Root, PathPart::Name(b":".to_vec())] };
    let explored = explored_path(&below, "/:".to_string(), false);
    assert_eq!(explored.parts, [PathPart::Root, PathPart::Name(b":\\".to_vec())]);
    // The same components, written otherwise.
    assert_eq!(explored_path(&name, "C:/".to_string(), false), name);
}

#[test]
fn other_mount_points_are_explored_where_they_are() {
    let home = path(&["home"]);
    assert_eq!(explored_path(&home, "/home".to_string(), false), home);
    assert_eq!(explored_path(&home, "/home".to_string(), true), home);
}
