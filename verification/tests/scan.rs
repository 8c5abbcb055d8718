use falcon::listing::{EntryName, Meta};
use falcon::path::{FsPath, PathPart};
use falcon::scan::{scan_depth, Action};
use falcon::tree::{Msg, Node};
use falcon::walk::{dir_size, Query};

/// A directory tree in memory.
struct Disk {
    listings: Vec<(FsPath, Vec<&'static str>)>,
    kinds: Vec<(FsPath, Meta)>,
}

fn path(names: &[&str]) -> FsPath {
    let mut parts = vec![PathPart::Root];
    for name in names {
        parts.push(PathPart::Name(name.as_bytes().to_vec()));
    }
    FsPath { parts }
}

impl Disk {
    fn names(&self, dir: &FsPath) -> Option<Vec<EntryName>> {
        let (_, names) = self.listings.iter().find(|(p, _)| p == dir)?;
        Some(
            names
                .iter()
                .map(|n| EntryName { id: n.as_bytes().to_vec(), text: n.to_string() })
                .collect(),
        )
    }

    fn kind(&self, path: &FsPath) -> Option<Meta> {
        self.kinds.iter().find(|(p, _)| p == path).map(|(_, kind)| *kind)
    }

    fn size(&self, dir: FsPath) -> u64 {
        let mut walk = dir_size(dir);
        loop {
            match walk.query() {
                Some(Query::ReadDir(p)) => walk.listed(self.names(&p)),
                Some(Query::Stat(p)) => {
                    let kind = self.kind(&p);
                    assert!(walk.has_room(kind));
                    walk.examined(kind);
                }
                None => return walk.total(),
            }
        }
    }

    /// All that a scan does but ask, messages after the first `taken` ones being refused.
    fn scan(&self, root: FsPath, max_depth: usize, taken: usize) -> Vec<Action> {
        let mut scan = scan_depth(root, max_depth);
        let mut out: Vec<Action> = Vec::new();
        let mut left = taken;
        loop {
            let action = scan.action();
            match &action {
                Action::ReadDir(p) => scan.listed(self.names(p)),
                Action::Stat(p) => {
                    let kind = self.kind(p);
                    assert!(scan.has_room(kind));
                    scan.examined(kind);
                }
                Action::Send(_) => {
                    scan.sent(left > 0);
                    left = left.saturating_sub(1);
                }
                Action::Refresh => scan.refreshed(),
                Action::Finished => return out,
            }
            if matches!(action, Action::Send(_) | Action::Refresh) {
                out.push(action);
            }
        }
    }
}

/// The root holds the directory `d` (a file of 5 bytes, a directory `e` with a file of 7 bytes),
/// an empty directory `x`, a file `f` of 3 bytes, an empty file and an entry that went away.
fn sample() -> Disk {
    Disk {
        listings: vec![
            (path(&[]), vec!["d", "gone", "empty", "f", "x"]),
            (path(&["d"]), vec!["e", "five"]),
            (path(&["d", "e"]), vec!["seven"]),
            (path(&["x"]), vec![]),
        ],
        kinds: vec![
            (path(&["d"]), Meta::Dir),
            (path(&["empty"]), Meta::File(0)),
            (path(&["f"]), Meta::File(3)),
            (path(&["x"]), Meta::Dir),
            (path(&["d", "e"]), Meta::Dir),
            (path(&["d", "five"]), Meta::File(5)),
            (path(&["d", "e", "seven"]), Meta::File(7)),
        ],
    }
}

fn entry(names: &[&str], size: u64, is_dir: bool) -> Action {
    let (name, above) = names.split_last().unwrap();
    let node = Node { name: name.to_string(), path: path(names), size, is_dir };
    Action::Send(Msg::Entry { parent: path(above), node })
}

fn ready(names: &[&str], size: u64) -> Action {
    Action::Send(Msg::SizeReady { path: path(names), size })
}

fn count() -> Action {
    Action::Send(Msg::DirCount {})
}

#[test]
fn sizes_add_up() {
    let disk = sample();
    assert_eq!(disk.size(path(&[])), 15);
    assert_eq!(disk.size(path(&["d"])), 12);
    assert_eq!(disk.size(path(&["d", "e"])), 7);
    assert_eq!(disk.size(path(&["x"])), 0);
    assert_eq!(disk.size(path(&["nowhere"])), 0);
}

#[test]
fn a_walk_goes_down_before_it_goes_on() {
    let disk = sample();
    let mut walk = dir_size(path(&["d"]));
    assert_eq!(walk.query(), Some(Query::ReadDir(path(&["d"]))));
    walk.listed(disk.names(&path(&["d"])));
    assert_eq!(walk.query(), Some(Query::Stat(path(&["d", "e"]))));
    walk.examined(Some(Meta::Dir));
    assert_eq!(walk.query(), Some(Query::ReadDir(path(&["d", "e"]))));
    walk.listed(None);
    assert_eq!(walk.query(), Some(Query::Stat(path(&["d", "five"]))));
    walk.examined(Some(Meta::File(5)));
    assert_eq!(walk.query(), None);
    assert_eq!(walk.total(), 5);
}

#[test]
fn a_size_has_to_fit() {
    let mut walk = dir_size(path(&[]));
    let names = vec![
        EntryName { id: b"a".to_vec(), text: "a".to_string() },
        EntryName { id: b"b".to_vec(), text: "b".to_string() },
    ];
    walk.listed(Some(names));
    walk.examined(Some(Meta::File(u64::MAX)));
    assert!(walk.has_room(None));
    assert!(walk.has_room(Some(Meta::Dir)));
    assert!(walk.has_room(Some(Meta::File(0))));
    assert!(!walk.has_room(Some(Meta::File(1))));
}

#[test]
fn two_levels() {
    let expected = vec![
        count(),
        entry(&["d"], 0, true),
        Action::Refresh,
        ready(&["d"], 12),
        Action::Refresh,
        count(),
        entry(&["d", "e"], 0, true),
        Action::Refresh,
        ready(&["d", "e"], 7),
        Action::Refresh,
        Action::Refresh,
        entry(&["d", "five"], 5, false),
        Action::Refresh,
        Action::Refresh,
        entry(&["f"], 3, false),
        Action::Refresh,
        entry(&["x"], 0, true),
        Action::Refresh,
        ready(&["x"], 0),
        Action::Refresh,
        count(),
        Action::Refresh,
        Action::Send(Msg::Done),
        Action::Refresh,
    ];
    assert_eq!(sample().scan(path(&[]), 2, usize::MAX), expected);
}

#[test]
fn one_level() {
    let expected = vec![
        count(),
        entry(&["d"], 0, true),
        Action::Refresh,
        ready(&["d"], 12),
        Action::Refresh,
        Action::Refresh,
        entry(&["f"], 3, false),
        Action::Refresh,
        entry(&["x"], 0, true),
        Action::Refresh,
        ready(&["x"], 0),
        Action::Refresh,
        Action::Refresh,
        Action::Send(Msg::Done),
        Action::Refresh,
    ];
    assert_eq!(sample().scan(path(&[]), 1, usize::MAX), expected);
}

#[test]
fn no_level() {
    let expected = vec![Action::Send(Msg::Done), Action::Refresh];
    assert_eq!(sample().scan(path(&[]), 0, usize::MAX), expected);
    assert_eq!(sample().scan(path(&["nowhere"]), 5, usize::MAX), expected);
}

#[test]
fn the_size_is_the_next_message_after_the_entry() {
    for depth in 0..5 {
        let out = sample().scan(path(&[]), depth, usize::MAX);
        let messages: Vec<&Action> = out.iter().filter(|a| matches!(a, Action::Send(_))).collect();
        for (i, action) in messages.iter().enumerate() {
            if let Action::Send(Msg::Entry { node, .. }) = action {
                if node.is_dir {
                    assert_eq!(node.size, 0);
                    let size = sample().size(node.path.clone());
                    let next = Action::Send(Msg::SizeReady { path: node.path.clone(), size });
                    assert_eq!(*messages[i + 1], next);
                }
            }
        }
    }
}

#[test]
fn a_refused_entry_ends_the_directory() {
    // The entry of `d` is refused: nothing else of the root is sent.
    let expected = vec![
        count(),
        entry(&["d"], 0, true),
        Action::Send(Msg::Done),
        Action::Refresh,
    ];
    assert_eq!(sample().scan(path(&[]), 2, 1), expected);
    // The announcement may be refused.
    assert_eq!(sample().scan(path(&[]), 2, 0), expected);
}

#[test]
fn a_refused_size_ends_the_directory() {
    let expected = vec![
        count(),
        entry(&["d"], 0, true),
        Action::Refresh,
        ready(&["d"], 12),
        Action::Send(Msg::Done),
        Action::Refresh,
    ];
    assert_eq!(sample().scan(path(&[]), 2, 2), expected);
}

#[test]
fn a_refused_entry_below_ends_only_the_directory_below() {
    // The entry of `d/e` is refused, and so is all that comes after it.
    let expected = vec![
        count(),
        entry(&["d"], 0, true),
        Action::Refresh,
        ready(&["d"], 12),
        Action::Refresh,
        count(),
        entry(&["d", "e"], 0, true),
        Action::Refresh,
        entry(&["f"], 3, false),
        Action::Send(Msg::Done),
        Action::Refresh,
    ];
    assert_eq!(sample().scan(path(&[]), 2, 4), expected);
}

#[test]
fn one_more_file_adds_its_length() {
    let mut disk = sample();
    disk.listings[2].1.insert(0, "more");
    disk.kinds.push((path(&["d", "e", "more"]), Meta::File(100)));
    assert_eq!(disk.size(path(&[])), 115);
    assert_eq!(disk.size(path(&["d"])), 112);
    assert_eq!(disk.size(path(&["d", "e"])), 107);
    assert_eq!(disk.size(path(&["x"])), 0);
}

#[test]
fn sizes_do_not_depend_on_the_order_of_listings() {
    let mut disk = sample();
    for (_, names) in &mut disk.listings {
        names.reverse();
    }
    assert_eq!(disk.size(path(&[])), 15);
    assert_eq!(disk.size(path(&["d"])), 12);
}
