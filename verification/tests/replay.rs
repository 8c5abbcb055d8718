use falcon::explorer::{Disk, FalconApp, Fraction};
use falcon::listing::{EntryName, Meta};
use falcon::path::{FsPath, PathPart};
use falcon::render::Row;
use falcon::scan::{scan_depth, Action};
use falcon::tree::Msg;

fn path(names: &[&str]) -> FsPath {
    let mut parts = vec![PathPart::Root];
    for name in names {
        parts.push(PathPart::Name(name.as_bytes().to_vec()));
    }
    FsPath { parts }
}

/// The root holds a file `B` of 30 bytes, an empty file, an empty directory, and the directory `a`,
/// which holds a file `x` of 100 bytes and the directory `deep` with a file `y` of 2048 bytes.
fn names(dir: &FsPath) -> Option<Vec<EntryName>> {
    let found: &[&str] = if *dir == path(&[]) {
        &["B", "none", "a", "hollow"]
    } else if *dir == path(&["a"]) {
        &["x", "deep"]
    } else if *dir == path(&["a", "deep"]) {
        &["y"]
    } else if *dir == path(&["hollow"]) {
        &[]
    } else {
        return None;
    };
    Some(found.iter().map(|n| EntryName { id: n.as_bytes().to_vec(), text: n.to_string() }).collect())
}

fn kind(of: &FsPath) -> Option<Meta> {
    if names(of).is_some() {
        Some(Meta::Dir)
    } else if *of == path(&["B"]) {
        Some(Meta::File(30))
    } else if *of == path(&["none"]) {
        Some(Meta::File(0))
    } else if *of == path(&["a", "x"]) {
        Some(Meta::File(100))
    } else if *of == path(&["a", "deep", "y"]) {
        Some(Meta::File(2048))
    } else {
        None
    }
}

fn messages(root: FsPath, max_depth: usize) -> Vec<Msg> {
    let mut scan = scan_depth(root, max_depth);
    let mut out = Vec::new();
    loop {
        match scan.action() {
            Action::ReadDir(dir) => scan.listed(names(&dir)),
            Action::Stat(of) => scan.examined(kind(&of)),
            Action::Send(msg) => {
                out.push(msg);
                scan.sent(true);
            }
            Action::Refresh => scan.refreshed(),
            Action::Finished => return out,
        }
    }
}

fn texts(rows: &[Row]) -> Vec<(usize, String)> {
    rows.iter().map(|r| (r.depth, r.text.clone())).collect()
}

/// An explorer that was told all that the scan of the disk sent, with the progress after each
/// message.
fn scanned() -> (FalconApp, Vec<Fraction>) {
    let disk = Disk::at(path(&[]), "/".to_string(), false, 5000, 644);
    let mut app = FalconApp::new(vec![disk]);
    let request = app.select_disk(&path(&[]), path(&[]), 0).unwrap();
    let mut shown = Vec::new();
    for msg in messages(request.root, request.max_depth) {
        assert!(app.is_loading());
        app.receive(&path(&[]), Some(msg), 7);
        assert!(app.is_well_filed());
        shown.push(app.progress());
    }
    (app, shown)
}

#[test]
fn the_tree_shows_the_disk() {
    let (mut app, _) = scanned();
    assert!(!app.is_loading());
    assert!(app.scan_roots().is_empty());
    let top = [(0, "📁 a   2.10 KB".to_string()), (0, "📄 B   30 B".to_string())];
    assert_eq!(texts(&app.rows()), top);
    assert_eq!(app.toggle(path(&["a"])), None);
    let open = [
        (0, "📁 a   2.10 KB".to_string()),
        (1, "📁 deep   2.00 KB".to_string()),
        (1, "📄 x   100 B".to_string()),
        (0, "📄 B   30 B".to_string()),
    ];
    assert_eq!(texts(&app.rows()), open);
    assert!(app.rows().iter().all(|row| !row.spinner));
}

#[test]
fn a_directory_below_the_scan_is_scanned_when_unfolded() {
    let (mut app, _) = scanned();
    app.toggle(path(&["a"]));
    let request = app.toggle(path(&["a", "deep"])).unwrap();
    for msg in messages(request.root, request.max_depth) {
        app.receive(&path(&["a", "deep"]), Some(msg), 8);
    }
    let rows = texts(&app.rows());
    assert_eq!(rows[2], (2, "📄 y   2.00 KB".to_string()));
    assert_eq!(rows.len(), 5);
    assert_eq!(app.progress(), Fraction { num: 1, den: 1 });
}

#[test]
fn each_byte_counts_once() {
    // 30 bytes of `B`, and 2148 bytes of all that lies below `a`: half of what is used.
    let (_, shown) = scanned();
    let before_the_end = shown[shown.len() - 2];
    assert_eq!(before_the_end, Fraction { num: 2178, den: 4356 });
    for pair in shown.windows(2) {
        assert!(pair[0].num as u128 * pair[1].den as u128 <= pair[1].num as u128 * pair[0].den as u128);
    }
}
