//! What the window shows at all, and what a choice made in it does.
use vstd::prelude::*;

use crate::explorer::{AppView, FalconApp, ScanRequest, PREFETCH_DEPTH};
use crate::path::{FsPath, PartView};
use crate::render::Row;

verus! {

/// What the window shows.
#[derive(Debug, Clone, Copy, PartialEq, Eq)]
pub enum Screen {
    /// The disks to choose from, and nothing else.
    Picker,
    /// The tree, with a bar of the progress while the disk is scanned.
    Tree { with_progress: bool },
}

impl AppView {
    /// What the window shows.
    pub open spec fn screen(self) -> Screen {
        match self.selected_disk {
            None => Screen::Picker,
            Some(_) => Screen::Tree { with_progress: self.initial_loading },
        }
    }

    /// The explorer after a disk was chosen from the list: the one that is selected already stays
    /// as it is.
    pub open spec fn choosing(
        self,
        mount_point: Seq<PartView>,
        root: Seq<PartView>,
        now: u64,
    ) -> AppView {
        if self.selected_disk == Some(mount_point) {
            self
        } else {
            self.selecting(mount_point, root, now)
        }
    }

    /// The explorer after a line of the tree was clicked: only a directory unfolds or folds.
    pub open spec fn clicking(self, path: Seq<PartView>, is_dir: bool) -> AppView {
        if is_dir {
            self.toggling(path)
        } else {
            self
        }
    }
}

impl FalconApp {
    /// What the window shows.
    pub fn screen(&self) -> (screen: Screen)
        ensures
            screen == self@.screen(),
    {
        if self.selected_disk().is_none() {
            Screen::Picker
        } else {
            Screen::Tree { with_progress: self.is_loading() }
        }
    }

    /// Takes in that a disk was chosen from the list: where it is mounted, and the path under which
    /// it is explored. Starts its scan, unless it is selected already.
    pub fn choose_disk(&mut self, mount_point: &FsPath, root: FsPath, now: u64) -> (request: Option<
        ScanRequest,
    >)
        requires
            old(self).wf(),
        ensures
            final(self).wf(),
            final(self)@ == old(self)@.choosing(mount_point@, root@, now),
            request is Some <==> old(self)@.selected_disk != Some(mount_point@),
            request matches Some(scan) ==> scan.root@ == root@ && scan.max_depth == PREFETCH_DEPTH,
    {
        if self.is_other_disk(mount_point) {
            self.select_disk(mount_point, root, now)
        } else {
            None
        }
    }

    /// Takes in that the disk at position `i` was chosen from the list.
    pub fn choose_disk_at(&mut self, i: usize, now: u64) -> (request: Option<ScanRequest>)
        requires
            old(self).wf(),
            i < old(self)@.disks.len(),
        ensures
            final(self).wf(),
            final(self)@ == old(self)@.choosing(
                old(self)@.disks[i as int].mount_point,
                old(self)@.disks[i as int].root,
                now,
            ),
            request is Some <==> old(self)@.selected_disk != Some(
                old(self)@.disks[i as int].mount_point,
            ),
            request matches Some(scan) ==> scan.root@ == old(self)@.disks[i as int].root
                && scan.max_depth == PREFETCH_DEPTH,
    {
        let disk = &self.disks()[i];
        let mount_point = disk.mount_point().clone();
        let root = disk.root().clone();
        self.choose_disk(&mount_point, root, now)
    }

    /// Takes in that a line of the tree was clicked.
    pub fn click(&mut self, row: &Row) -> (request: Option<ScanRequest>)
        requires
            old(self).wf(),
        ensures
            final(self).wf(),
            final(self)@ == old(self)@.clicking(row@.path, row@.is_dir),
            request is Some <==> row@.is_dir && old(self)@.toggle_scans(row@.path),
            request matches Some(scan) ==> scan.root@ == row@.path && scan.max_depth
                == PREFETCH_DEPTH,
    {
        if row.is_dir {
            self.toggle(row.path.clone())
        } else {
            None
        }
    }
}

} // verus!
