//! The state of the explorer, and how choosing a disk, folding a directory and the messages of
//! the scans change it.
use vstd::prelude::*;

use crate::children::{
    add_node, drop_path, has_path, holds, list_wf, set_size, with_node, with_size, without_path,
};
use crate::collection::{PathMap, PathSet};
use crate::path::{explored, explored_path, parent_of, FsPath, PartView};
use crate::tree::{nodes_view, Msg, MsgView, Node, NodeView};

verus! {

/// How many levels a scan of a disk, or of a directory that is unfolded, goes down.
pub const PREFETCH_DEPTH: usize = 2;

/// A disk: where it is mounted, the path under which it is explored, and its space in bytes.
pub struct Disk {
    mount_point: FsPath,
    root: FsPath,
    total_space: u64,
    available_space: u64,
}

/// What a [`Disk`] stands for.
pub struct DiskView {
    pub mount_point: Seq<PartView>,
    pub root: Seq<PartView>,
    pub total_space: u64,
    pub available_space: u64,
}

impl View for Disk {
    type V = DiskView;

    closed spec fn view(&self) -> DiskView {
        DiskView {
            mount_point: self.mount_point@,
            root: self.root@,
            total_space: self.total_space,
            available_space: self.available_space,
        }
    }
}

impl Disk {
    /// The disk that is mounted at `mount_point`, which is written `text`; `separates` says whether
    /// a backslash separates the components of a path. It is explored under its normalized mount
    /// point.
    pub fn at(
        mount_point: FsPath,
        text: String,
        separates: bool,
        total_space: u64,
        available_space: u64,
    ) -> (disk: Disk)
        ensures
            disk@ == (DiskView {
                mount_point: mount_point@,
                root: explored(mount_point@, text@, separates),
                total_space,
                available_space,
            }),
    {
        let root = explored_path(&mount_point, text, separates);
        Disk { mount_point, root, total_space, available_space }
    }

    /// Where the disk is mounted.
    pub fn mount_point(&self) -> (path: &FsPath)
        ensures
            path@ == self@.mount_point,
    {
        &self.mount_point
    }

    /// The path under which the disk is explored.
    pub fn root(&self) -> (path: &FsPath)
        ensures
            path@ == self@.root,
    {
        &self.root
    }
}

/// What a list of disks stands for.
pub open spec fn disks_view(disks: Seq<Disk>) -> Seq<DiskView> {
    Seq::new(disks.len(), |i: int| disks[i]@)
}

/// The total and the available space of the first disk that is mounted at `path`; none if no disk
/// is.
pub open spec fn space_at(disks: Seq<DiskView>, path: Seq<PartView>) -> (u64, u64)
    decreases disks.len(),
{
    if disks.len() == 0 {
        (0, 0)
    } else if disks.first().mount_point == path {
        (disks.first().total_space, disks.first().available_space)
    } else {
        space_at(disks.drop_first(), path)
    }
}

/// A fraction.
#[derive(Debug, Clone, Copy, PartialEq, Eq)]
pub struct Fraction {
    pub num: u64,
    pub den: u64,
}

impl Fraction {
    /// Whether this is the smaller one of two fractions.
    pub open spec fn less(self, other: Fraction) -> bool {
        self.num * other.den < other.num * self.den
    }
}

/// How much of a disk was scanned, as far as it is shown before the scan is over: 99 percent at
/// most.
pub open spec fn shown_part(scanned: nat, used: nat) -> Fraction {
    if scanned * 100 > used * 99 {
        Fraction { num: 99, den: 100 }
    } else {
        Fraction { num: scanned as u64, den: used as u64 }
    }
}

/// A scan that is to be started.
#[derive(Debug, PartialEq, Eq)]
pub struct ScanRequest {
    pub root: FsPath,
    pub max_depth: usize,
}

/// The explorer.
pub struct FalconApp {
    disks: Vec<Disk>,
    root_path: Option<FsPath>,
    expanded: PathSet,
    cache: PathMap<Vec<Node>>,
    /// The scans under way, each with whether it is that of a whole disk.
    scans: PathMap<bool>,
    /// Directories whose size is still pending.
    pending_sizes: PathSet,
    initial_loading: bool,
    display_progress: Fraction,
    selected_disk: Option<FsPath>,
    /// Bytes accounted for so far in the scan of the disk: the directories in its root, once their
    /// size is there, and the files in its root.
    scanned_bytes: u64,
    /// Used bytes of the selected disk.
    disk_used_bytes: u64,
    /// When the scan of the disk started, in nanoseconds.
    scan_start: Option<u64>,
    /// When the scan of the disk ended, in nanoseconds.
    scan_end: Option<u64>,
}

/// What the explorer stands for.
#[verifier::ext_equal]
pub struct AppView {
    pub disks: Seq<DiskView>,
    pub root_path: Option<Seq<PartView>>,
    pub expanded: Set<Seq<PartView>>,
    pub cache: Map<Seq<PartView>, Seq<NodeView>>,
    pub scans: Map<Seq<PartView>, bool>,
    pub pending_sizes: Set<Seq<PartView>>,
    pub initial_loading: bool,
    pub display_progress: Fraction,
    pub selected_disk: Option<Seq<PartView>>,
    pub scanned_bytes: nat,
    pub disk_used_bytes: nat,
    pub scan_start: Option<u64>,
    pub scan_end: Option<u64>,
}

/// What an optional path stands for.
pub open spec fn path_view(path: Option<FsPath>) -> Option<Seq<PartView>> {
    match path {
        Some(p) => Some(p@),
        None => None,
    }
}

spec fn cache_view(cache: Map<Seq<PartView>, Vec<Node>>) -> Map<Seq<PartView>, Seq<NodeView>> {
    cache.map_values(|list: Vec<Node>| nodes_view(list@))
}

impl View for FalconApp {
    type V = AppView;

    closed spec fn view(&self) -> AppView {
        AppView {
            disks: disks_view(self.disks@),
            root_path: path_view(self.root_path),
            expanded: self.expanded@,
            cache: cache_view(self.cache@),
            scans: self.scans@,
            pending_sizes: self.pending_sizes@,
            initial_loading: self.initial_loading,
            display_progress: self.display_progress,
            selected_disk: path_view(self.selected_disk),
            scanned_bytes: self.scanned_bytes as nat,
            disk_used_bytes: self.disk_used_bytes as nat,
            scan_start: self.scan_start,
            scan_end: self.scan_end,
        }
    }
}

/// Whether `path` lies more than two levels below `dir`.
pub open spec fn lies_deep_below(path: Seq<PartView>, dir: Seq<PartView>) -> bool {
    dir.is_prefix_of(path) && path.len() - dir.len() > 2
}

impl AppView {
    /// Whether the state is one that the explorer can be in: each list that it holds is in order
    /// and has no entry twice, byte counts fit in 64 bits, and the progress is a fraction of at
    /// most one.
    pub open spec fn wf(self) -> bool {
        &&& forall|dir: Seq<PartView>| #[trigger]
            self.cache.dom().contains(dir) ==> list_wf(self.cache[dir])
        &&& self.scanned_bytes <= u64::MAX
        &&& self.disk_used_bytes <= u64::MAX
        &&& 0 < self.display_progress.den
        &&& self.display_progress.num <= self.display_progress.den
    }

    /// The explorer at the start. A disk that is the only one is selected.
    pub open spec fn start(disks: Seq<DiskView>) -> AppView {
        AppView {
            disks,
            root_path: None,
            expanded: Set::empty(),
            cache: Map::empty(),
            scans: Map::empty(),
            pending_sizes: Set::empty(),
            initial_loading: false,
            display_progress: Fraction { num: 0, den: 1 },
            selected_disk: if disks.len() == 1 {
                Some(disks[0].root)
            } else {
                None
            },
            scanned_bytes: 0,
            disk_used_bytes: 0,
            scan_start: None,
            scan_end: None,
        }
    }

    /// Whether a scan of `root` can be started: whether none is under way.
    pub open spec fn can_scan(self, root: Seq<PartView>) -> bool {
        !self.scans.dom().contains(root)
    }

    /// The explorer with a scan of `root` under way.
    pub open spec fn scanning(self, root: Seq<PartView>, is_initial: bool) -> AppView {
        if self.can_scan(root) {
            AppView { scans: self.scans.insert(root, is_initial), ..self }
        } else {
            self
        }
    }

    /// The explorer after the disk that is mounted at `mount_point`, and explored at `root`, was
    /// selected: all that was known is forgotten, and only the scan of the disk is under way.
    pub open spec fn selecting(
        self,
        mount_point: Seq<PartView>,
        root: Seq<PartView>,
        now: u64,
    ) -> AppView {
        let (total, available) = space_at(self.disks, mount_point);
        AppView {
            disks: self.disks,
            root_path: Some(root),
            expanded: Set::empty().insert(root),
            cache: Map::empty(),
            scans: Map::empty().insert(root, true),
            pending_sizes: Set::empty(),
            initial_loading: true,
            display_progress: Fraction { num: 0, den: 1 },
            selected_disk: Some(root),
            scanned_bytes: 0,
            disk_used_bytes: if total >= available {
                (total - available) as nat
            } else {
                0
            },
            scan_start: Some(now),
            scan_end: None,
        }
    }

    /// Whether unfolding the directory starts a scan of it: nothing is known of what it holds, and
    /// no scan of it is under way.
    pub open spec fn toggle_scans(self, path: Seq<PartView>) -> bool {
        !self.expanded.contains(path) && !self.cache.dom().contains(path) && self.can_scan(path)
    }

    /// The explorer after the directory was unfolded, or folded if it was unfolded already. What
    /// lies deep below a directory that is folded is forgotten.
    pub open spec fn toggling(self, path: Seq<PartView>) -> AppView {
        if self.expanded.contains(path) {
            AppView {
                expanded: self.expanded.remove(path),
                cache: Map::new(
                    |dir: Seq<PartView>|
                        self.cache.dom().contains(dir) && !lies_deep_below(dir, path),
                    |dir: Seq<PartView>| self.cache[dir],
                ),
                ..self
            }
        } else {
            let open = AppView { expanded: self.expanded.insert(path), ..self };
            if self.toggle_scans(path) {
                open.scanning(path, false)
            } else {
                open
            }
        }
    }

    /// The entries of a directory that are known.
    pub open spec fn children(self, dir: Seq<PartView>) -> Seq<NodeView> {
        if self.cache.dom().contains(dir) {
            self.cache[dir]
        } else {
            Seq::empty()
        }
    }

    /// Whether a path lies directly in the root of the disk that is explored.
    pub open spec fn is_root_child(self, path: Seq<PartView>) -> bool {
        self.root_path is Some && parent_of(path) == self.root_path
    }

    /// The explorer after `size` bytes at `path` were found. They count toward the progress of the
    /// scan of a disk if they lie directly in its root: the size of a directory includes what
    /// lies below it.
    pub open spec fn counting(self, is_initial: bool, path: Seq<PartView>, size: nat) -> AppView {
        if is_initial && self.disk_used_bytes > 0 && self.is_root_child(path) {
            let sum = self.scanned_bytes + size;
            let scanned = if sum <= u64::MAX {
                sum
            } else {
                u64::MAX as nat
            };
            let part = shown_part(scanned, self.disk_used_bytes);
            AppView {
                scanned_bytes: scanned,
                display_progress: if self.display_progress.less(part) {
                    part
                } else {
                    self.display_progress
                },
                ..self
            }
        } else {
            self
        }
    }

    /// The explorer after an entry arrived. A directory waits for its size. An entry that is known
    /// already is not taken in again.
    pub open spec fn entering(
        self,
        is_initial: bool,
        parent: Seq<PartView>,
        node: NodeView,
    ) -> AppView {
        let filed = AppView {
            pending_sizes: if node.is_dir {
                self.pending_sizes.insert(node.path)
            } else {
                self.pending_sizes
            },
            cache: self.cache.insert(parent, with_node(self.children(parent), node)),
            ..self
        };
        if node.is_dir || holds(self.children(parent), node.path) {
            filed
        } else {
            filed.counting(is_initial, node.path, node.size)
        }
    }

    /// Whether `cache` is what is known after the size of the directory at `path` arrived. A
    /// directory of size 0 is taken out. Any other gets its size, in one of the lists that hold it.
    pub open spec fn is_resized(
        self,
        path: Seq<PartView>,
        size: nat,
        cache: Map<Seq<PartView>, Seq<NodeView>>,
    ) -> bool {
        if size == 0 {
            cache == self.cache.map_values(|list: Seq<NodeView>| without_path(list, path))
        } else {
            ||| cache == self.cache && forall|dir: Seq<PartView>| #[trigger]
                self.cache.dom().contains(dir) ==> !holds(self.cache[dir], path)
            ||| exists|dir: Seq<PartView>| #[trigger]
                self.cache.dom().contains(dir) && holds(self.cache[dir], path) && cache
                    == self.cache.insert(dir, with_size(self.cache[dir], path, size))
        }
    }

    /// The explorer after the size of the directory at `path` arrived, with what is then known.
    pub open spec fn resizing(
        self,
        is_initial: bool,
        path: Seq<PartView>,
        size: nat,
        cache: Map<Seq<PartView>, Seq<NodeView>>,
    ) -> AppView {
        AppView { pending_sizes: self.pending_sizes.remove(path), cache, ..self }.counting(
            is_initial,
            path,
            size,
        )
    }

    /// The explorer after the scan of `root` said that it is over.
    pub open spec fn finishing(self, root: Seq<PartView>, now: u64) -> AppView {
        let rest = AppView { scans: self.scans.remove(root), ..self };
        if self.scans[root] {
            AppView {
                display_progress: Fraction { num: 1, den: 1 },
                initial_loading: false,
                scan_end: Some(now),
                ..rest
            }
        } else {
            rest
        }
    }

    /// The total and the available space of the first disk that is mounted at the path under which
    /// the selected one is explored; none if no disk is.
    pub open spec fn disk_space(self) -> (u64, u64) {
        match self.selected_disk {
            Some(path) => space_at(self.disks, path),
            None => (0, 0),
        }
    }

    /// How many seconds the scan of the disk has taken: up to now, or up to its end.
    pub open spec fn elapsed_seconds(self, now: u64) -> int {
        let until = match self.scan_end {
            Some(end) => end,
            None => now,
        };
        match self.scan_start {
            Some(start) => if until >= start {
                (until - start) / 1_000_000_000
            } else {
                0
            },
            None => 0,
        }
    }

    /// Whether `next` is the explorer after the scan of `root` was asked for a message, and gave
    /// this one or none.
    pub open spec fn receives(
        self,
        root: Seq<PartView>,
        msg: Option<MsgView>,
        now: u64,
        next: AppView,
    ) -> bool {
        match msg {
            None => next == self,
            Some(MsgView::DirCount) => next == self,
            Some(MsgView::Entry { parent, node }) => next == self.entering(
                self.scans[root],
                parent,
                node,
            ),
            Some(MsgView::SizeReady { path, size }) => self.is_resized(path, size, next.cache)
                && next == self.resizing(self.scans[root], path, size, next.cache),
            Some(MsgView::Done) => next == self.finishing(root, now),
        }
    }
}

impl FalconApp {
    /// Whether the state is one that the explorer can be in.
    pub closed spec fn wf(&self) -> bool {
        &&& self.expanded.wf()
        &&& self.cache.wf()
        &&& self.scans.wf()
        &&& self.pending_sizes.wf()
        &&& self@.wf()
    }

    /// The explorer at the start. A disk that is the only one is selected.
    pub fn new(disks: Vec<Disk>) -> (app: FalconApp)
        ensures
            app.wf(),
            app@ == AppView::start(disks_view(disks@)),
    {
        let selected_disk = if disks.len() == 1 {
            Some(disks[0].root.clone())
        } else {
            None
        };
        let app = FalconApp {
            disks,
            root_path: None,
            expanded: PathSet::new(),
            cache: PathMap::new(),
            scans: PathMap::new(),
            pending_sizes: PathSet::new(),
            initial_loading: false,
            display_progress: Fraction { num: 0, den: 1 },
            selected_disk,
            scanned_bytes: 0,
            disk_used_bytes: 0,
            scan_start: None,
            scan_end: None,
        };
        assert(app@.cache =~= Map::empty());
        assert(app@ =~= AppView::start(disks_view(disks@)));
        app
    }

    /// The total and the available space of the first disk that is mounted at `path`.
    fn space(&self, path: &FsPath) -> (space: (u64, u64))
        ensures
            space == space_at(self@.disks, path@),
    {
        let mut i: usize = 0;
        let ghost disks = self@.disks;
        assert(disks.skip(0) =~= disks);
        while i < self.disks.len()
            invariant
                i <= self.disks@.len(),
                disks == disks_view(self.disks@),
                space_at(disks, path@) == space_at(disks.skip(i as int), path@),
            decreases self.disks@.len() - i,
        {
            assert(disks.skip(i as int).first() == self.disks@[i as int]@);
            if self.disks[i].mount_point.same(path) {
                return (self.disks[i].total_space, self.disks[i].available_space);
            }
            assert(disks.skip(i as int).drop_first() =~= disks.skip(i + 1));
            i += 1;
        }
        (0, 0)
    }

    /// Starts a scan of `root`, unless one is under way.
    pub fn start_scan(&mut self, root: FsPath, is_initial: bool, depth: usize) -> (request: Option<
        ScanRequest,
    >)
        requires
            old(self).wf(),
        ensures
            final(self).wf(),
            final(self)@ == old(self)@.scanning(root@, is_initial),
            request is Some <==> old(self)@.can_scan(root@),
            request matches Some(scan) ==> scan.root@ == root@ && scan.max_depth == depth,
    {
        if self.scans.contains(&root) {
            return None;
        }
        self.scans.add(root.clone(), is_initial);
        Some(ScanRequest { root, max_depth: depth })
    }

    /// Selects the disk that is mounted at `mount_point`, to be explored at `root`, and starts its
    /// scan.
    pub fn select_disk(&mut self, mount_point: &FsPath, root: FsPath, now: u64) -> (request: Option<
        ScanRequest,
    >)
        requires
            old(self).wf(),
        ensures
            final(self).wf(),
            final(self)@ == old(self)@.selecting(mount_point@, root@, now),
            request matches Some(scan) && scan.root@ == root@ && scan.max_depth == PREFETCH_DEPTH,
    {
        let (total, available) = self.space(mount_point);
        self.disk_used_bytes = if total >= available {
            total - available
        } else {
            0
        };
        self.scanned_bytes = 0;
        self.selected_disk = Some(root.clone());
        self.root_path = Some(root.clone());
        self.expanded.clear();
        self.expanded.insert(root.clone());
        self.cache.clear();
        self.scans.clear();
        self.pending_sizes.clear();
        self.initial_loading = true;
        self.display_progress = Fraction { num: 0, den: 1 };
        self.scan_start = Some(now);
        self.scan_end = None;
        assert(self@.cache =~= Map::empty());
        let request = self.start_scan(root, true, PREFETCH_DEPTH);
        assert(self@ =~= old(self)@.selecting(mount_point@, root@, now));
        request
    }

    /// Unfolds a directory, or folds it if it is unfolded. Unfolding one of which nothing is known
    /// starts a scan of it.
    pub fn toggle(&mut self, path: FsPath) -> (request: Option<ScanRequest>)
        requires
            old(self).wf(),
        ensures
            final(self).wf(),
            final(self)@ == old(self)@.toggling(path@),
            request is Some <==> old(self)@.toggle_scans(path@),
            request matches Some(scan) ==> scan.root@ == path@ && scan.max_depth
                == PREFETCH_DEPTH,
    {
        if self.expanded.contains(&path) {
            self.expanded.remove(&path);
            self.forget_below(&path);
            assert(self@ =~= old(self)@.toggling(path@));
            None
        } else {
            self.expanded.insert(path.clone());
            if !self.cache.contains(&path) && !self.scans.contains(&path) {
                self.start_scan(path, false, PREFETCH_DEPTH)
            } else {
                None
            }
        }
    }

    /// Forgets what lies deep below `path`.
    fn forget_below(&mut self, path: &FsPath)
        requires
            old(self).wf(),
        ensures
            final(self).wf(),
            final(self)@ == (AppView {
                cache: Map::new(
                    |dir: Seq<PartView>|
                        old(self)@.cache.dom().contains(dir) && !lies_deep_below(dir, path@),
                    |dir: Seq<PartView>| old(self)@.cache[dir],
                ),
                ..old(self)@
            }),
    {
        let ghost start = *self;
        let mut i: usize = 0;
        while i < self.cache.len()
            invariant
                start == *old(self),
                start.wf(),
                self.wf(),
                i <= self.cache.keys().len(),
                self@ == (AppView { cache: self@.cache, ..start@ }),
                forall|dir: Seq<PartView>| #[trigger]
                    self.cache@.dom().contains(dir) ==> start.cache@.dom().contains(dir)
                        && self.cache@[dir] == start.cache@[dir],
                forall|dir: Seq<PartView>|
                    start.cache@.dom().contains(dir) && !lies_deep_below(dir, path@)
                        ==> #[trigger] self.cache@.dom().contains(dir),
                forall|k: int|
                    0 <= k < i ==> !lies_deep_below(#[trigger] self.cache.keys()[k], path@),
            decreases self.cache.keys().len() - i,
        {
            let ghost before = *self;
            let key = self.cache.key(i);
            let deep = key.starts_with(path) && key.len() - path.len() > 2;
            if deep {
                self.cache.remove_at(i);
                assert(self@.cache =~= before@.cache.remove(before.cache.keys()[i as int]));
                assert(self@ =~= AppView { cache: self@.cache, ..start@ });
                assert forall|dir: Seq<PartView>| #[trigger]
                    self.cache@.dom().contains(dir) implies start.cache@.dom().contains(dir)
                    && self.cache@[dir] == start.cache@[dir] by {
                    assert(before.cache@.dom().contains(dir));
                }
                assert forall|k: int| 0 <= k < i implies !lies_deep_below(
                    #[trigger] self.cache.keys()[k],
                    path@,
                ) by {
                    assert(self.cache.keys()[k] == before.cache.keys()[k]);
                }
            } else {
                i += 1;
            }
        }
        proof {
            self.cache.keys_are_domain();
            let cache = Map::new(
                |dir: Seq<PartView>|
                    start@.cache.dom().contains(dir) && !lies_deep_below(dir, path@),
                |dir: Seq<PartView>| start@.cache[dir],
            );
            assert forall|dir: Seq<PartView>| #[trigger]
                self@.cache.dom().contains(dir) implies cache.dom().contains(dir)
                && self@.cache[dir] == cache[dir] by {
                assert(self.cache@.dom().contains(dir));
                assert(self.cache.keys().contains(dir));
                let k = choose|k: int|
                    0 <= k < self.cache.keys().len() && self.cache.keys()[k] == dir;
                assert(self.cache.keys()[k] == dir);
            }
            assert forall|dir: Seq<PartView>| #[trigger]
                cache.dom().contains(dir) implies self@.cache.dom().contains(dir) by {
                assert(self.cache@.dom().contains(dir));
            }
            assert(self@.cache =~= cache);
        }
    }

    /// Whether a path lies directly in the root of the disk that is explored.
    fn is_root_child(&self, path: &FsPath) -> (is_child: bool)
        ensures
            is_child == self@.is_root_child(path@),
    {
        match (&self.root_path, path.parent()) {
            (Some(root), Some(parent)) => parent.same(root),
            _ => false,
        }
    }

    /// Counts the bytes found at `path` toward the progress of the scan of a disk.
    fn count(&mut self, is_initial: bool, path: &FsPath, size: u64)
        requires
            old(self).wf(),
        ensures
            final(self).wf(),
            final(self)@ == old(self)@.counting(is_initial, path@, size as nat),
    {
        if is_initial && self.disk_used_bytes > 0 && self.is_root_child(path) {
            self.scanned_bytes = if size <= u64::MAX - self.scanned_bytes {
                self.scanned_bytes + size
            } else {
                u64::MAX
            };
            let scanned: u128 = self.scanned_bytes as u128;
            let used: u128 = self.disk_used_bytes as u128;
            let part = if scanned * 100 > used * 99 {
                Fraction { num: 99, den: 100 }
            } else {
                Fraction { num: self.scanned_bytes, den: self.disk_used_bytes }
            };
            let shown = self.display_progress;
            assert(0 <= shown.num * part.den < 0x1_0000_0000_0000_0000 * 0x1_0000_0000_0000_0000)
                by (nonlinear_arith)
                requires
                    0 <= shown.num < 0x1_0000_0000_0000_0000,
                    0 <= part.den < 0x1_0000_0000_0000_0000,
            ;
            assert(0 <= part.num * shown.den < 0x1_0000_0000_0000_0000 * 0x1_0000_0000_0000_0000)
                by (nonlinear_arith)
                requires
                    0 <= part.num < 0x1_0000_0000_0000_0000,
                    0 <= shown.den < 0x1_0000_0000_0000_0000,
            ;
            if (shown.num as u128) * (part.den as u128) < (part.num as u128) * (shown.den as u128) {
                self.display_progress = part;
            }
        }
        assert(self@ =~= old(self)@.counting(is_initial, path@, size as nat));
    }

    /// Files an entry under its directory. Gives back whether it was not known yet.
    fn file_node(&mut self, parent: FsPath, node: Node) -> (added: bool)
        requires
            old(self).wf(),
        ensures
            final(self).wf(),
            added == !holds(old(self)@.children(parent@), node@.path),
            final(self)@ == (AppView {
                cache: old(self)@.cache.insert(
                    parent@,
                    with_node(old(self)@.children(parent@), node@),
                ),
                ..old(self)@
            }),
    {
        let ghost before = *self;
        let added = match self.cache.position(&parent) {
            Some(i) => {
                let mut list = self.cache.replace(i, Vec::new());
                assert(before@.cache.dom().contains(parent@));
                assert(nodes_view(list@) == before@.children(parent@));
                let added = add_node(&mut list, node);
                let _ = self.cache.replace(i, list);
                added
            },
            None => {
                let mut list: Vec<Node> = Vec::new();
                assert(nodes_view(list@) =~= before@.children(parent@));
                let added = add_node(&mut list, node);
                self.cache.add(parent, list);
                added
            },
        };
        assert(self@.cache =~= before@.cache.insert(
            parent@,
            with_node(before@.children(parent@), node@),
        ));
        added
    }

    /// Takes the directory at `path` out of all lists.
    fn drop_everywhere(&mut self, path: &FsPath)
        requires
            old(self).wf(),
        ensures
            final(self).wf(),
            final(self)@ == (AppView {
                cache: old(self)@.cache.map_values(
                    |list: Seq<NodeView>| without_path(list, path@),
                ),
                ..old(self)@
            }),
    {
        let ghost start = *self;
        let mut i: usize = 0;
        while i < self.cache.len()
            invariant
                start == *old(self),
                start.wf(),
                self.wf(),
                i <= self.cache.keys().len(),
                self.cache.keys() == start.cache.keys(),
                self@ == (AppView { cache: self@.cache, ..start@ }),
                self@.cache.dom() == start@.cache.dom(),
                forall|k: int|
                    0 <= k < i ==> self@.cache[#[trigger] self.cache.keys()[k]] == without_path(
                        start@.cache[self.cache.keys()[k]],
                        path@,
                    ),
                forall|k: int|
                    i <= k < self.cache.keys().len() ==> self@.cache[#[trigger] self.cache.keys()[k]]
                        == start@.cache[self.cache.keys()[k]],
            decreases self.cache.keys().len() - i,
        {
            let ghost before = *self;
            let ghost dir = self.cache.keys()[i as int];
            proof {
                self.cache.keys_are_domain();
                assert(self.cache.keys().contains(dir));
                assert(before@.cache.dom().contains(dir));
            }
            let mut list = self.cache.replace(i, Vec::new());
            drop_path(&mut list, path);
            let _ = self.cache.replace(i, list);
            assert(self@.cache =~= before@.cache.insert(dir, nodes_view(list@)));
            assert(self@.cache.dom() =~= start@.cache.dom());
            i += 1;
        }
        proof {
            self.cache.keys_are_domain();
            let cache = start@.cache.map_values(|list: Seq<NodeView>| without_path(list, path@));
            assert forall|dir: Seq<PartView>| #[trigger]
                self@.cache.dom().contains(dir) implies self@.cache[dir] == cache[dir] by {
                assert(self.cache.keys().contains(dir));
                let k = choose|k: int|
                    0 <= k < self.cache.keys().len() && self.cache.keys()[k] == dir;
                assert(self.cache.keys()[k] == dir);
            }
            assert(self@.cache =~= cache);
        }
    }

    /// Gives the directory at `path` its size, in the first list that holds it.
    fn resize(&mut self, path: &FsPath, size: u64)
        requires
            old(self).wf(),
            size > 0,
        ensures
            final(self).wf(),
            final(self)@ == (AppView { cache: final(self)@.cache, ..old(self)@ }),
            old(self)@.is_resized(path@, size as nat, final(self)@.cache),
    {
        let mut i: usize = 0;
        while i < self.cache.len()
            invariant
                *self == *old(self),
                self.wf(),
                size > 0,
                i <= self.cache.keys().len(),
                forall|k: int|
                    0 <= k < i ==> !holds(self@.cache[#[trigger] self.cache.keys()[k]], path@),
            decreases self.cache.keys().len() - i,
        {
            let ghost before = *self;
            let ghost dir = self.cache.keys()[i as int];
            proof {
                self.cache.keys_are_domain();
                assert(self.cache.keys().contains(dir));
                assert(before@.cache.dom().contains(dir));
            }
            if has_path(self.cache.value(i), path) {
                let mut list = self.cache.replace(i, Vec::new());
                set_size(&mut list, path, size);
                let _ = self.cache.replace(i, list);
                assert(self@.cache =~= before@.cache.insert(
                    dir,
                    with_size(before@.cache[dir], path@, size as nat),
                ));
                assert(self@ =~= AppView { cache: self@.cache, ..before@ });
                return;
            }
            i += 1;
        }
        proof {
            self.cache.keys_are_domain();
            assert forall|dir: Seq<PartView>| #[trigger] self@.cache.dom().contains(dir) implies
                !holds(self@.cache[dir], path@) by {
                assert(self.cache.keys().contains(dir));
                let k = choose|k: int|
                    0 <= k < self.cache.keys().len() && self.cache.keys()[k] == dir;
                assert(self.cache.keys()[k] == dir);
            }
        }
    }

    /// Takes in what the scan of `root` gave when it was asked for a message: this one, or none.
    /// Gives back whether the window has to be drawn again for it.
    pub fn receive(&mut self, root: &FsPath, msg: Option<Msg>, now: u64) -> (repaint: bool)
        requires
            old(self).wf(),
            old(self)@.scans.dom().contains(root@),
        ensures
            final(self).wf(),
            old(self)@.receives(root@, msg_view(msg), now, final(self)@),
            repaint == (msg_view(msg) != Some(MsgView::Done)),
    {
        let ghost before = self@;
        let (at, is_initial) = match self.scans.position(root) {
            Some(i) => (i, *self.scans.value(i)),
            None => (0, false),
        };
        match msg {
            None => true,
            Some(Msg::DirCount {  }) => true,
            Some(Msg::Entry { parent, node }) => {
                let is_dir = node.is_dir;
                let path = node.path.clone();
                let size: u64 = node.size;
                if is_dir {
                    self.pending_sizes.insert(path.clone());
                }
                let added = self.file_node(parent, node);
                if added && !is_dir {
                    self.count(is_initial, &path, size);
                }
                assert(self@ =~= before.entering(is_initial, parent@, node@));
                true
            },
            Some(Msg::SizeReady { path, size }) => {
                self.pending_sizes.remove(&path);
                if size == 0 {
                    self.drop_everywhere(&path);
                } else {
                    self.resize(&path, size);
                }
                self.count(is_initial, &path, size);
                assert(self@ =~= before.resizing(is_initial, path@, size as nat, self@.cache));
                true
            },
            Some(Msg::Done) => {
                self.scans.remove_at(at);
                if is_initial {
                    self.display_progress = Fraction { num: 1, den: 1 };
                    self.initial_loading = false;
                    self.scan_end = Some(now);
                }
                assert(self@ =~= before.finishing(root@, now));
                false
            },
        }
    }
}

impl FalconApp {
    /// The entries of a directory that are known.
    pub fn children(&self, dir: &FsPath) -> (list: Option<&Vec<Node>>)
        requires
            self.wf(),
        ensures
            list is Some <==> self@.cache.dom().contains(dir@),
            list matches Some(nodes) ==> nodes_view(nodes@) == self@.cache[dir@],
    {
        match self.cache.position(dir) {
            Some(i) => Some(self.cache.value(i)),
            None => None,
        }
    }

    /// Whatever the explorer was told, each list of entries that it holds is in order and has no
    /// entry twice.
    pub proof fn lists_are_in_order(&self)
        requires
            self.wf(),
        ensures
            self@.wf(),
    {
    }

    /// The directories of which something is known, in the order in which they were found.
    pub closed spec fn cached_dirs(&self) -> Seq<Seq<PartView>> {
        self.cache.keys()
    }

    /// These are the directories of which something is known.
    pub proof fn cached_dirs_are_domain(&self)
        requires
            self.wf(),
        ensures
            forall|dir: Seq<PartView>| #[trigger]
                self@.cache.dom().contains(dir) <==> self.cached_dirs().contains(dir),
    {
        self.cache.keys_are_domain();
        assert forall|dir: Seq<PartView>| #[trigger]
            self@.cache.dom().contains(dir) <==> self.cached_dirs().contains(dir) by {
            assert(self.cache@.dom().contains(dir) <==> self.cache.keys().contains(dir));
        }
    }

    /// How many these are.
    pub(crate) fn cached_len(&self) -> (n: usize)
        ensures
            n == self.cached_dirs().len(),
    {
        self.cache.len()
    }

    /// The directory at position `i` among these, and its entries.
    pub(crate) fn cached(&self, i: usize) -> (found: (&FsPath, &Vec<Node>))
        requires
            self.wf(),
            i < self.cached_dirs().len(),
        ensures
            found.0@ == self.cached_dirs()[i as int],
            self@.cache.dom().contains(found.0@),
            nodes_view(found.1@) == self@.cache[found.0@],
    {
        proof {
            self.cached_dirs_are_domain();
            assert(self.cached_dirs().contains(self.cached_dirs()[i as int]));
            assert(self@.cache.dom().contains(self.cached_dirs()[i as int]));
            assert(self.cache@.dom().contains(self.cache.keys()[i as int]));
        }
        (self.cache.key(i), self.cache.value(i))
    }

    /// The root of the disk that is explored.
    pub fn root_path(&self) -> (root: Option<&FsPath>)
        ensures
            match root {
                Some(path) => self@.root_path == Some(path@),
                None => self@.root_path is None,
            },
    {
        self.root_path.as_ref()
    }

    /// The disk that is selected.
    pub fn selected_disk(&self) -> (disk: Option<&FsPath>)
        ensures
            match disk {
                Some(path) => self@.selected_disk == Some(path@),
                None => self@.selected_disk is None,
            },
    {
        self.selected_disk.as_ref()
    }

    /// Whether picking the disk that is mounted at `path` selects another disk.
    pub fn is_other_disk(&self, path: &FsPath) -> (other: bool)
        ensures
            other == (self@.selected_disk != Some(path@)),
    {
        match &self.selected_disk {
            Some(selected) => !selected.same(path),
            None => true,
        }
    }

    /// The disks that there are.
    pub fn disks(&self) -> (disks: &Vec<Disk>)
        ensures
            disks_view(disks@) == self@.disks,
    {
        &self.disks
    }

    /// The total and the available space of the first disk that is mounted at the path under which
    /// the selected one is explored; none if no disk is.
    pub fn disk_space(&self) -> (space: (u64, u64))
        ensures
            space == self@.disk_space(),
    {
        match &self.selected_disk {
            Some(path) => self.space(path),
            None => (0, 0),
        }
    }

    /// Whether the scan of a disk is under way.
    pub fn is_loading(&self) -> (loading: bool)
        ensures
            loading == self@.initial_loading,
    {
        self.initial_loading
    }

    /// How far the scan of the disk has come.
    pub fn progress(&self) -> (part: Fraction)
        ensures
            part == self@.display_progress,
    {
        self.display_progress
    }

    /// How many seconds the scan of the disk has taken.
    pub fn elapsed_seconds(&self, now: u64) -> (seconds: u64)
        ensures
            seconds == self@.elapsed_seconds(now),
    {
        let until: u64 = match self.scan_end {
            Some(end) => end,
            None => now,
        };
        match self.scan_start {
            Some(start) => if until >= start {
                (until - start) / 1_000_000_000
            } else {
                0
            },
            None => 0,
        }
    }

    /// Whether the size of a directory is pending.
    pub fn is_pending(&self, dir: &FsPath) -> (pending: bool)
        requires
            self.wf(),
        ensures
            pending == self@.pending_sizes.contains(dir@),
    {
        self.pending_sizes.contains(dir)
    }

    /// Whether a scan of a directory is under way.
    pub fn is_scanning(&self, dir: &FsPath) -> (scanning: bool)
        requires
            self.wf(),
        ensures
            scanning == self@.scans.dom().contains(dir@),
    {
        self.scans.contains(dir)
    }

    /// Whether a directory is unfolded.
    pub fn is_expanded(&self, dir: &FsPath) -> (expanded: bool)
        requires
            self.wf(),
        ensures
            expanded == self@.expanded.contains(dir@),
    {
        self.expanded.contains(dir)
    }
}

/// What one message of each scan, or none, stands for.
pub open spec fn inbox_view(inbox: Seq<(FsPath, Option<Msg>)>) -> Seq<
    (Seq<PartView>, Option<MsgView>),
> {
    Seq::new(inbox.len(), |i: int| (inbox[i].0@, msg_view(inbox[i].1)))
}

impl AppView {
    /// Whether `next` is the explorer after each of these scans, one after the other, was asked
    /// for a message.
    pub open spec fn receives_all(
        self,
        inbox: Seq<(Seq<PartView>, Option<MsgView>)>,
        now: u64,
        next: AppView,
    ) -> bool
        decreases inbox.len(),
    {
        if inbox.len() == 0 {
            next == self
        } else {
            exists|mid: AppView|
                self.receives_all(inbox.drop_last(), now, mid) && #[trigger] mid.receives(
                    inbox.last().0,
                    inbox.last().1,
                    now,
                    next,
                )
        }
    }

    /// Whether each of these scans is under way, and none is named twice.
    pub open spec fn are_scans(self, inbox: Seq<(Seq<PartView>, Option<MsgView>)>) -> bool {
        &&& forall|i: int|
            0 <= i < inbox.len() ==> self.scans.dom().contains((#[trigger] inbox[i]).0)
        &&& forall|i: int, j: int|
            0 <= i < j < inbox.len() ==> (#[trigger] inbox[i]).0 != (#[trigger] inbox[j]).0
    }
}

impl FalconApp {
    /// The roots of the scans under way.
    pub fn scan_roots(&self) -> (roots: Vec<FsPath>)
        requires
            self.wf(),
        ensures
            forall|path: Seq<PartView>| #[trigger]
                self@.scans.dom().contains(path) <==> exists|i: int|
                    0 <= i < roots@.len() && (#[trigger] roots@[i])@ == path,
            forall|i: int, j: int|
                0 <= i < j < roots@.len() ==> (#[trigger] roots@[i])@ != (#[trigger] roots@[j])@,
    {
        let mut roots: Vec<FsPath> = Vec::new();
        let mut i: usize = 0;
        while i < self.scans.len()
            invariant
                self.wf(),
                i <= self.scans.keys().len(),
                roots@.len() == i,
                forall|k: int| 0 <= k < i ==> (#[trigger] roots@[k])@ == self.scans.keys()[k],
            decreases self.scans.keys().len() - i,
        {
            roots.push(self.scans.key(i).clone());
            i += 1;
        }
        proof {
            self.scans.keys_are_domain();
            assert forall|path: Seq<PartView>| #[trigger]
                self@.scans.dom().contains(path) <==> exists|k: int|
                0 <= k < roots@.len() && (#[trigger] roots@[k])@ == path by {
                assert(self.scans@.dom().contains(path) <==> self.scans.keys().contains(path));
                if self.scans.keys().contains(path) {
                    let k = choose|k: int|
                        0 <= k < self.scans.keys().len() && self.scans.keys()[k] == path;
                    assert(roots@[k]@ == path);
                }
                if exists|k: int| 0 <= k < roots@.len() && (#[trigger] roots@[k])@ == path {
                    let k = choose|k: int| 0 <= k < roots@.len() && (#[trigger] roots@[k])@ == path;
                    assert(self.scans.keys()[k] == path);
                }
            }
            assert forall|a: int, b: int| 0 <= a < b < roots@.len() implies (
            #[trigger] roots@[a])@ != (#[trigger] roots@[b])@ by {
                assert(self.scans.keys()[a] != self.scans.keys()[b]);
            }
        }
        roots
    }

    /// Takes in what the scans gave when each of them was asked for one message. Gives back whether
    /// the window has to be drawn again: a scan goes on, or a size is pending.
    pub fn poll_scans(&mut self, inbox: Vec<(FsPath, Option<Msg>)>, now: u64) -> (repaint: bool)
        requires
            old(self).wf(),
            old(self)@.are_scans(inbox_view(inbox@)),
        ensures
            final(self).wf(),
            old(self)@.receives_all(inbox_view(inbox@), now, final(self)@),
            repaint == ((exists|i: int|
                0 <= i < inbox@.len() && (#[trigger] inbox_view(inbox@)[i]).1 != Some(
                    MsgView::Done,
                )) || final(self)@.pending_sizes != Set::<Seq<PartView>>::empty()),
    {
        let ghost all = inbox_view(inbox@);
        let ghost mut seen: int = 0;
        let mut inbox = inbox;
        let mut repaint = false;
        assert(all.take(0) =~= Seq::empty());
        assert(inbox_view(inbox@) =~= all.skip(0));
        while inbox.len() > 0
            invariant
                self.wf(),
                0 <= seen <= all.len(),
                inbox_view(inbox@) == all.skip(seen),
                old(self)@.receives_all(all.take(seen), now, self@),
                old(self)@.are_scans(all),
                forall|i: int|
                    seen <= i < all.len() ==> self@.scans.dom().contains((#[trigger] all[i]).0),
                repaint == exists|i: int|
                    0 <= i < seen && (#[trigger] all[i]).1 != Some(MsgView::Done),
            decreases inbox@.len(),
        {
            let ghost before = self@;
            let ghost rest = inbox_view(inbox@);
            assert(rest.len() > 0);
            assert(rest[0] == all[seen]);
            let (root, msg) = inbox.remove(0);
            assert(inbox_view(inbox@) =~= rest.drop_first());
            assert(rest.drop_first() =~= all.skip(seen + 1));
            if self.receive(&root, msg, now) {
                repaint = true;
            }
            proof {
                assert(all.take(seen + 1).drop_last() =~= all.take(seen));
                assert(all.take(seen + 1).last() == all[seen]);
                assert(all[seen] == (root@, msg_view(msg)));
                assert(before.receives(all[seen].0, all[seen].1, now, self@));
                assert(old(self)@.receives_all(all.take(seen + 1).drop_last(), now, before));
                assert(old(self)@.receives_all(all.take(seen + 1), now, self@));
                assert(self@.scans == before.scans || self@.scans == before.scans.remove(root@));
                assert forall|i: int| seen + 1 <= i < all.len() implies self@.scans.dom().contains(
                    (#[trigger] all[i]).0,
                ) by {
                    assert(all[seen].0 != all[i].0);
                }
                seen = seen + 1;
            }
        }
        assert(all.take(seen) =~= all);
        if !self.pending_sizes.is_empty() {
            repaint = true;
        }
        repaint
    }
}

/// What an optional message stands for.
pub open spec fn msg_view(msg: Option<Msg>) -> Option<MsgView> {
    match msg {
        Some(m) => Some(m@),
        None => None,
    }
}

} // verus!
