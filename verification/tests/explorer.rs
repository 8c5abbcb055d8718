use falcon::explorer::{Disk, FalconApp, Fraction, ScanRequest};
use falcon::path::{FsPath, PathPart};
use falcon::render::Row;
use falcon::screen::Screen;
use falcon::tree::{Msg, Node};

fn path(names: &[&str]) -> FsPath {
    let mut parts = vec![PathPart::Root];
    for name in names {
        parts.push(PathPart::Name(name.as_bytes().to_vec()));
    }
    FsPath { parts }
}

fn disk(names: &[&str], total: u64, available: u64) -> Disk {
    let text = format!("/{}", names.join("/"));
    Disk::at(path(names), text, false, total, available)
}

/// The drive `C:`, mounted without its root.
fn drive() -> FsPath {
    FsPath { parts: vec![PathPart::Prefix(b"C:".to_vec())] }
}

/// The root of the drive `C:`.
fn drive_root() -> FsPath {
    FsPath { parts: vec![PathPart::Prefix(b"C:".to_vec()), PathPart::Root] }
}

fn entry(names: &[&str], size: u64, is_dir: bool) -> Option<Msg> {
    let (name, above) = names.split_last().unwrap();
    let node = Node { name: name.to_string(), path: path(names), size, is_dir };
    Some(Msg::Entry { parent: path(above), node })
}

fn ready(names: &[&str], size: u64) -> Option<Msg> {
    Some(Msg::SizeReady { path: path(names), size })
}

fn names(list: Option<&Vec<Node>>) -> Vec<(String, u64)> {
    list.unwrap().iter().map(|n| (n.name.clone(), n.size)).collect()
}

fn shown(rows: &[Row]) -> Vec<(usize, String)> {
    rows.iter().map(|r| (r.depth, r.text.clone())).collect()
}

/// An explorer that scans a disk of which 1000 bytes are used, mounted at the root.
fn exploring() -> FalconApp {
    let mut app = FalconApp::new(vec![disk(&["other"], 7, 1), disk(&[], 5000, 4000)]);
    let request = app.select_disk(&path(&[]), path(&[]), 10);
    assert_eq!(request, Some(ScanRequest { root: path(&[]), max_depth: 2 }));
    app
}

#[test]
fn nothing_is_selected_among_several_disks() {
    let app = FalconApp::new(vec![disk(&["a"], 7, 1), disk(&["b"], 5, 4)]);
    assert_eq!(app.selected_disk(), None);
    assert_eq!(app.disk_space(), (0, 0));
    assert_eq!(app.elapsed_seconds(5), 0);
    assert_eq!(app.root_path(), None);
    assert!(app.rows().is_empty());
    assert!(FalconApp::new(vec![]).selected_disk().is_none());
}

#[test]
fn an_only_disk_is_selected_but_not_scanned() {
    let only = Disk::at(drive(), "C:".to_string(), true, 9, 2);
    assert_eq!(*only.mount_point(), drive());
    assert_eq!(*only.root(), drive_root());
    let app = FalconApp::new(vec![only]);
    assert_eq!(app.disks().len(), 1);
    assert_eq!(app.selected_disk(), Some(&drive_root()));
    assert_eq!(app.root_path(), None);
    assert!(app.scan_roots().is_empty());
    assert!(app.is_other_disk(&drive()));
    assert!(!app.is_other_disk(&drive_root()));
}

#[test]
fn selecting_a_disk() {
    let app = exploring();
    assert_eq!(app.selected_disk(), Some(&path(&[])));
    assert_eq!(app.root_path(), Some(&path(&[])));
    assert_eq!(app.disk_space(), (5000, 4000));
    assert!(app.is_loading());
    assert!(app.is_expanded(&path(&[])));
    assert_eq!(app.progress(), Fraction { num: 0, den: 1 });
    assert_eq!(app.scan_roots(), vec![path(&[])]);
}

#[test]
fn selecting_again_forgets() {
    let mut app = exploring();
    app.receive(&path(&[]), entry(&["d"], 0, true), 11);
    app.receive(&path(&[]), entry(&["f"], 10, false), 11);
    assert!(app.is_pending(&path(&["d"])));
    let request = app.select_disk(&path(&["other"]), path(&["other"]), 20);
    assert_eq!(request, Some(ScanRequest { root: path(&["other"]), max_depth: 2 }));
    assert_eq!(app.children(&path(&[])), None);
    assert!(!app.is_pending(&path(&["d"])));
    assert!(!app.is_expanded(&path(&[])));
    assert_eq!(app.scan_roots(), vec![path(&["other"])]);
    assert_eq!(app.progress(), Fraction { num: 0, den: 1 });
}

#[test]
fn one_scan_of_a_directory_at_a_time() {
    let mut app = exploring();
    assert_eq!(app.start_scan(path(&[]), false, 2), None);
    let request = app.start_scan(path(&["d"]), false, 7);
    assert_eq!(request, Some(ScanRequest { root: path(&["d"]), max_depth: 7 }));
    assert_eq!(app.start_scan(path(&["d"]), false, 7), None);
    assert!(app.is_scanning(&path(&["d"])));
}

#[test]
fn entries_are_filed_in_order_and_once() {
    let mut app = exploring();
    let root = path(&[]);
    assert!(app.receive(&root, Some(Msg::DirCount {}), 11));
    assert!(app.receive(&root, None, 11));
    assert!(app.receive(&root, entry(&["b"], 4, false), 11));
    assert!(app.receive(&root, entry(&["A"], 3, false), 11));
    assert!(app.receive(&root, entry(&["z"], 0, true), 11));
    assert!(app.receive(&root, entry(&["b"], 99, false), 11));
    let list = names(app.children(&root));
    assert_eq!(list, [("z".to_string(), 0), ("A".to_string(), 3), ("b".to_string(), 4)]);
    assert!(app.is_well_filed());
}

#[test]
fn a_size_goes_to_its_directory() {
    let mut app = exploring();
    let root = path(&[]);
    app.receive(&root, entry(&["d"], 0, true), 11);
    assert!(app.is_pending(&path(&["d"])));
    app.receive(&root, ready(&["d"], 12), 11);
    assert!(!app.is_pending(&path(&["d"])));
    assert_eq!(names(app.children(&root)), [("d".to_string(), 12)]);
    // Nothing is known of this one.
    app.receive(&root, ready(&["nowhere"], 12), 11);
    assert_eq!(names(app.children(&root)), [("d".to_string(), 12)]);
}

#[test]
fn an_empty_directory_is_taken_out() {
    let mut app = exploring();
    let root = path(&[]);
    app.receive(&root, entry(&["d"], 0, true), 11);
    app.receive(&root, entry(&["e"], 0, true), 11);
    app.receive(&root, ready(&["d"], 0), 11);
    assert_eq!(names(app.children(&root)), [("e".to_string(), 0)]);
    assert!(!app.is_pending(&path(&["d"])));
    assert!(app.is_pending(&path(&["e"])));
}

#[test]
fn progress_counts_the_root_only() {
    let mut app = exploring();
    let root = path(&[]);
    app.receive(&root, entry(&["d"], 0, true), 11);
    assert_eq!(app.progress(), Fraction { num: 0, den: 1 });
    app.receive(&root, ready(&["d"], 250), 11);
    assert_eq!(app.progress(), Fraction { num: 250, den: 1000 });
    app.receive(&root, entry(&["d", "e"], 0, true), 11);
    app.receive(&root, ready(&["d", "e"], 200), 11);
    app.receive(&root, entry(&["d", "g"], 50, false), 11);
    assert_eq!(app.progress(), Fraction { num: 250, den: 1000 });
    app.receive(&root, entry(&["f"], 500, false), 11);
    assert_eq!(app.progress(), Fraction { num: 750, den: 1000 });
    // An entry that is known is not counted again.
    app.receive(&root, entry(&["f"], 500, false), 11);
    assert_eq!(app.progress(), Fraction { num: 750, den: 1000 });
}

#[test]
fn progress_stops_at_99_percent_until_the_end() {
    let mut app = exploring();
    let root = path(&[]);
    app.receive(&root, ready(&["d"], 990), 11);
    assert_eq!(app.progress(), Fraction { num: 990, den: 1000 });
    app.receive(&root, ready(&["e"], u64::MAX), 11);
    assert_eq!(app.progress(), Fraction { num: 990, den: 1000 });
    app.receive(&root, ready(&["g"], 1), 11);
    assert_eq!(app.progress(), Fraction { num: 990, den: 1000 });
    assert!(!app.receive(&root, Some(Msg::Done), 3_000_000_010));
    assert_eq!(app.progress(), Fraction { num: 1, den: 1 });
    assert!(!app.is_loading());
    assert!(app.scan_roots().is_empty());
    assert_eq!(app.elapsed_seconds(9_000_000_000), 3);
}

#[test]
fn a_large_part_is_shown_as_99_percent() {
    let mut app = exploring();
    app.receive(&path(&[]), ready(&["d"], 991), 11);
    assert_eq!(app.progress(), Fraction { num: 99, den: 100 });
}

#[test]
fn a_disk_without_used_bytes_shows_no_progress() {
    let mut app = FalconApp::new(vec![disk(&["a"], 7, 7), disk(&["b"], 1, 2)]);
    for name in ["a", "b", "nowhere"] {
        app.select_disk(&path(&[name]), path(&[name]), 10);
        app.receive(&path(&[name]), ready(&[name, "d"], 5), 11);
        assert_eq!(app.progress(), Fraction { num: 0, den: 1 });
    }
}

#[test]
fn other_scans_do_not_count() {
    let mut app = exploring();
    app.start_scan(path(&["d"]), false, 2);
    app.receive(&path(&["d"]), ready(&["e"], 500), 11);
    assert_eq!(app.progress(), Fraction { num: 0, den: 1 });
    assert!(!app.receive(&path(&["d"]), Some(Msg::Done), 11));
    assert!(app.is_loading());
    assert_eq!(app.scan_roots(), vec![path(&[])]);
}

#[test]
fn elapsed_time_runs_until_the_end() {
    let mut app = exploring();
    assert_eq!(app.elapsed_seconds(10), 0);
    assert_eq!(app.elapsed_seconds(1_000_000_009), 0);
    assert_eq!(app.elapsed_seconds(1_000_000_010), 1);
    assert_eq!(app.elapsed_seconds(61_000_000_010), 61);
    assert_eq!(app.elapsed_seconds(3), 0);
    app.receive(&path(&[]), Some(Msg::Done), 2_500_000_000);
    assert_eq!(app.elapsed_seconds(61_000_000_010), 2);
}

#[test]
fn unfolding_scans_what_is_not_known() {
    let mut app = exploring();
    let request = app.toggle(path(&["d"]));
    assert_eq!(request, Some(ScanRequest { root: path(&["d"]), max_depth: 2 }));
    assert!(app.is_expanded(&path(&["d"])));
    // Folded and unfolded again, the scan is still under way.
    assert_eq!(app.toggle(path(&["d"])), None);
    assert!(!app.is_expanded(&path(&["d"])));
    assert_eq!(app.toggle(path(&["d"])), None);
    assert!(app.is_expanded(&path(&["d"])));
    // What is known is not scanned.
    app.receive(&path(&[]), entry(&["e", "f"], 1, false), 11);
    assert_eq!(app.toggle(path(&["e"])), None);
    assert!(app.is_expanded(&path(&["e"])));
}

#[test]
fn folding_forgets_what_lies_deep() {
    let mut app = exploring();
    let root = path(&[]);
    app.receive(&root, entry(&["a"], 0, true), 11);
    app.receive(&root, entry(&["a", "b"], 0, true), 11);
    app.receive(&root, entry(&["a", "b", "c"], 0, true), 11);
    app.receive(&root, entry(&["a", "b", "c", "d"], 0, true), 11);
    app.receive(&root, entry(&["a", "b", "c", "d", "e"], 4, false), 11);
    app.receive(&root, entry(&["z", "b", "c", "d", "e"], 4, false), 11);
    assert_eq!(app.toggle(root.clone()), None);
    assert!(app.children(&root).is_some());
    assert!(app.children(&path(&["a"])).is_some());
    assert!(app.children(&path(&["a", "b"])).is_some());
    assert!(app.children(&path(&["a", "b", "c"])).is_none());
    assert!(app.children(&path(&["a", "b", "c", "d"])).is_none());
    assert!(app.children(&path(&["z", "b", "c", "d"])).is_none());
}

#[test]
fn polling_takes_one_message_of_each_scan() {
    let mut app = exploring();
    app.start_scan(path(&["d"]), false, 2);
    let inbox = vec![(path(&[]), entry(&["f"], 3, false)), (path(&["d"]), entry(&["d", "g"], 4, false))];
    assert!(app.poll_scans(inbox, 11));
    assert_eq!(names(app.children(&path(&[]))), [("f".to_string(), 3)]);
    assert_eq!(names(app.children(&path(&["d"]))), [("g".to_string(), 4)]);
    assert!(app.poll_scans(vec![(path(&["d"]), Some(Msg::Done)), (path(&[]), None)], 12));
    assert!(!app.poll_scans(vec![(path(&[]), Some(Msg::Done))], 13));
    assert!(!app.poll_scans(vec![], 14));
    assert!(app.scan_roots().is_empty());
}

#[test]
fn polling_repaints_while_a_size_is_pending() {
    let mut app = exploring();
    app.receive(&path(&[]), entry(&["d"], 0, true), 11);
    assert!(app.poll_scans(vec![(path(&[]), Some(Msg::Done))], 12));
    assert!(app.poll_scans(vec![], 13));
}

#[test]
fn the_tree_shows_unfolded_directories() {
    let mut app = exploring();
    let root = path(&[]);
    app.receive(&root, entry(&["d"], 0, true), 11);
    app.receive(&root, ready(&["d"], 2048), 11);
    app.receive(&root, entry(&["d", "g"], 2048, false), 11);
    app.receive(&root, entry(&["f"], 3, false), 11);
    app.receive(&root, entry(&["w"], 0, true), 11);
    assert!(app.is_well_filed());
    let folded = [
        (0, "📁 d   2.00 KB".to_string()),
        (0, "📁 w   ...".to_string()),
        (0, "📄 f   3 B".to_string()),
    ];
    assert_eq!(shown(&app.rows()), folded);
    assert_eq!(app.toggle(path(&["d"])), None);
    let rows = app.rows();
    let unfolded = [
        (0, "📁 d   2.00 KB".to_string()),
        (1, "📄 g   2.00 KB".to_string()),
        (0, "📁 w   ...".to_string()),
        (0, "📄 f   3 B".to_string()),
    ];
    assert_eq!(shown(&rows), unfolded);
    let marks: Vec<char> = rows.iter().map(|r| r.mark).collect();
    assert_eq!(marks, ['▼', ' ', '▶', ' ']);
    let spinners: Vec<bool> = rows.iter().map(|r| r.spinner).collect();
    assert_eq!(spinners, [false, false, true, false]);
    let dirs: Vec<bool> = rows.iter().map(|r| r.is_dir).collect();
    assert_eq!(dirs, [true, false, true, false]);
    assert_eq!(rows[1].path, path(&["d", "g"]));
}

#[test]
fn a_directory_that_is_scanned_spins() {
    let mut app = exploring();
    let root = path(&[]);
    app.receive(&root, entry(&["d"], 0, true), 11);
    app.receive(&root, ready(&["d"], 5), 11);
    assert!(!app.rows()[0].spinner);
    app.toggle(path(&["d"]));
    assert!(app.rows()[0].spinner);
    app.receive(&path(&["d"]), Some(Msg::Done), 12);
    assert!(!app.rows()[0].spinner);
}

#[test]
fn rendering_goes_on_behind_what_is_there() {
    let mut app = exploring();
    app.receive(&path(&[]), entry(&["f"], 3, false), 11);
    let mut out = Vec::new();
    app.render_tree(&path(&[]), 5, &mut out);
    app.render_tree(&path(&["unknown"]), 6, &mut out);
    app.render_tree(&path(&[]), 7, &mut out);
    let depths: Vec<usize> = out.iter().map(|(depth, _)| *depth).collect();
    assert_eq!(depths, [5, 7]);
}

#[test]
fn an_entry_under_a_wrong_directory_is_noticed() {
    let mut app = exploring();
    let node = Node { name: "x".to_string(), path: path(&["d", "x"]), size: 1, is_dir: false };
    app.receive(&path(&[]), Some(Msg::Entry { parent: path(&[]), node }), 11);
    assert!(!app.is_well_filed());
}

#[test]
fn the_window_offers_disks_first() {
    let mut app = FalconApp::new(vec![disk(&["a"], 7, 1), disk(&["b"], 5, 4)]);
    assert_eq!(app.screen(), Screen::Picker);
    let request = app.choose_disk(&path(&["a"]), path(&["a"]), 10);
    assert_eq!(request, Some(ScanRequest { root: path(&["a"]), max_depth: 2 }));
    assert_eq!(app.screen(), Screen::Tree { with_progress: true });
    app.receive(&path(&["a"]), Some(Msg::Done), 11);
    assert_eq!(app.screen(), Screen::Tree { with_progress: false });
}

#[test]
fn choosing_the_selected_disk_changes_nothing() {
    let mut app = exploring();
    app.receive(&path(&[]), entry(&["f"], 3, false), 11);
    assert_eq!(app.choose_disk(&path(&[]), path(&[]), 12), None);
    assert!(app.children(&path(&[])).is_some());
    assert!(app.choose_disk(&path(&["other"]), path(&["other"]), 12).is_some());
    assert!(app.children(&path(&[])).is_none());
    assert_eq!(app.selected_disk(), Some(&path(&["other"])));
}

#[test]
fn only_directories_take_clicks() {
    let mut app = exploring();
    app.receive(&path(&[]), entry(&["d"], 0, true), 11);
    app.receive(&path(&[]), entry(&["f"], 3, false), 11);
    let rows = app.rows();
    assert_eq!(app.click(&rows[1]), None);
    assert!(!app.is_expanded(&path(&["f"])));
    let request = app.click(&rows[0]);
    assert_eq!(request, Some(ScanRequest { root: path(&["d"]), max_depth: 2 }));
    assert!(app.is_expanded(&path(&["d"])));
    assert_eq!(app.click(&rows[0]), None);
    assert!(!app.is_expanded(&path(&["d"])));
}

#[test]
fn the_used_bytes_of_a_bare_drive_are_known() {
    let disks = vec![
        disk(&["other"], 7, 1),
        Disk::at(drive(), "C:".to_string(), true, 100, 40),
        Disk::at(drive(), "C:".to_string(), true, 900, 1),
    ];
    let mut app = FalconApp::new(disks);
    let request = app.select_disk(&drive(), drive_root(), 10);
    assert_eq!(request, Some(ScanRequest { root: drive_root(), max_depth: 2 }));
    assert_eq!(app.selected_disk(), Some(&drive_root()));
    assert_eq!(app.root_path(), Some(&drive_root()));
    let msg = Msg::SizeReady { path: drive_root().child(&b"d".to_vec()), size: 15 };
    app.receive(&drive_root(), Some(msg), 11);
    assert_eq!(app.progress(), Fraction { num: 15, den: 60 });
}

#[test]
fn the_space_shown_is_that_of_the_disk_mounted_at_the_selected_path() {
    let mut app = FalconApp::new(vec![Disk::at(drive(), "C:".to_string(), true, 100, 40)]);
    assert_eq!(app.disk_space(), (0, 0));
    app.select_disk(&drive(), drive_root(), 10);
    assert_eq!(app.disk_space(), (0, 0));
    app = FalconApp::new(vec![
        Disk::at(drive(), "C:".to_string(), true, 100, 40),
        Disk::at(drive_root(), "C:\\".to_string(), true, 300, 50),
    ]);
    app.select_disk(&drive(), drive_root(), 10);
    assert_eq!(app.disk_space(), (300, 50));
}

#[test]
fn choosing_by_position() {
    let mut app = FalconApp::new(vec![
        disk(&["other"], 7, 1),
        Disk::at(drive(), "C:".to_string(), true, 100, 40),
    ]);
    let request = app.choose_disk_at(1, 10);
    assert_eq!(request, Some(ScanRequest { root: drive_root(), max_depth: 2 }));
    assert_eq!(app.selected_disk(), Some(&drive_root()));
    let msg = Msg::SizeReady { path: drive_root().child(&b"d".to_vec()), size: 30 };
    app.receive(&drive_root(), Some(msg), 11);
    assert_eq!(app.progress(), Fraction { num: 30, den: 60 });
    let request = app.choose_disk_at(0, 12);
    assert_eq!(request, Some(ScanRequest { root: path(&["other"]), max_depth: 2 }));
    assert_eq!(app.choose_disk_at(0, 13), None);
    assert_eq!(app.disk_space(), (7, 1));
}

#[test]
fn a_tree_can_start_at_the_empty_path() {
    let empty = FsPath { parts: vec![] };
    let only = Disk::at(empty.clone(), String::new(), false, 9, 1);
    let mut app = FalconApp::new(vec![only]);
    app.select_disk(&empty, empty.clone(), 10);
    assert!(app.is_well_filed());
    assert!(app.rows().is_empty());
    let node = Node { name: "f".to_string(), path: empty.child(&b"f".to_vec()), size: 3, is_dir: false };
    app.receive(&empty, Some(Msg::Entry { parent: empty.clone(), node }), 11);
    assert!(app.is_well_filed());
    assert_eq!(shown(&app.rows()), [(0, "📄 f   3 B".to_string())]);
}
