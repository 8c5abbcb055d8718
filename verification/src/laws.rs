//! What holds of the explorer whatever it is told.
pub mod order;
pub mod paths;
pub mod scan;
pub mod size;
pub mod state;
pub mod text;
pub mod tree;
pub mod views;

use vstd::prelude::*;

use crate::explorer::{space_at, AppView, DiskView, Fraction};
use crate::path::PartView;
use crate::tree::MsgView;

verus! {

/// Folding and unfolding undo each other: after both, the same directories are unfolded.
pub proof fn toggle_twice(app: AppView, path: Seq<PartView>)
    ensures
        app.toggling(path).toggling(path).expanded == app.expanded,
{
    assert(app.toggling(path).toggling(path).expanded =~= app.expanded);
}

/// Folding or unfolding a directory does not touch what is known of any directory that does not
/// lie more than two levels below it.
pub proof fn toggle_keeps_near(app: AppView, path: Seq<PartView>, dir: Seq<PartView>)
    requires
        path.is_prefix_of(dir) ==> dir.len() <= path.len() + 2,
    ensures
        app.toggling(path).cache.dom().contains(dir) <==> app.cache.dom().contains(dir),
        app.toggling(path).children(dir) == app.children(dir),
{
}

/// A directory can be scanned by one scan at a time: while one is under way no other is started.
pub proof fn one_scan_at_a_time(app: AppView, path: Seq<PartView>, is_initial: bool)
    requires
        !app.can_scan(path),
    ensures
        app.scanning(path, is_initial) == app,
        !app.toggle_scans(path),
{
}

/// Selecting a disk forgets all that was known: what comes after depends on the disks alone.
pub proof fn selecting_starts_afresh(
    a: AppView,
    b: AppView,
    mount_point: Seq<PartView>,
    root: Seq<PartView>,
    now: u64,
)
    requires
        a.disks == b.disks,
    ensures
        a.selecting(mount_point, root, now) == b.selecting(mount_point, root, now),
{
}

/// Whatever the path under which a disk is explored, its used bytes are those of the first disk that
/// is mounted where it is.
pub proof fn used_bytes_are_of_the_disk(
    app: AppView,
    i: int,
    root: Seq<PartView>,
    now: u64,
)
    requires
        0 <= i < app.disks.len(),
        forall|j: int| 0 <= j < i ==> (#[trigger] app.disks[j]).mount_point
            != app.disks[i].mount_point,
    ensures
        ({
            let next = app.selecting(app.disks[i].mount_point, root, now);
            &&& app.disks[i].total_space >= app.disks[i].available_space ==> next.disk_used_bytes
                == app.disks[i].total_space - app.disks[i].available_space
            &&& app.disks[i].total_space < app.disks[i].available_space ==> next.disk_used_bytes
                == 0
        }),
{
    first_is_found(app.disks, i);
}

/// The space of a disk is found if no disk before it is mounted at the same place.
proof fn first_is_found(disks: Seq<DiskView>, i: int)
    requires
        0 <= i < disks.len(),
        forall|j: int| 0 <= j < i ==> (#[trigger] disks[j]).mount_point != disks[i].mount_point,
    ensures
        space_at(disks, disks[i].mount_point) == (disks[i].total_space, disks[i].available_space),
    decreases i,
{
    if i > 0 {
        let rest = disks.drop_first();
        assert(disks[0].mount_point != disks[i].mount_point);
        assert forall|j: int| 0 <= j < i - 1 implies (#[trigger] rest[j]).mount_point
            != rest[i - 1].mount_point by {
            assert(rest[j] == disks[j + 1]);
        }
        first_is_found(rest, i - 1);
    }
}

/// The progress that is shown never falls, whatever message arrives.
pub proof fn progress_never_falls(
    app: AppView,
    root: Seq<PartView>,
    msg: Option<MsgView>,
    now: u64,
    next: AppView,
)
    requires
        app.wf(),
        app.receives(root, msg, now, next),
    ensures
        !next.display_progress.less(app.display_progress),
{
    let p = app.display_progress;
    assert(!p.less(p));
    if let Some(MsgView::Done) = msg {
        assert(p.num * 1 <= 1 * p.den);
        assert(!(Fraction { num: 1, den: 1 }).less(p)) by (nonlinear_arith)
            requires
                p.num <= p.den,
        ;
    }
}

/// While the scan of the disk goes on, at most 99 percent are shown.
pub proof fn progress_stays_below(
    app: AppView,
    root: Seq<PartView>,
    msg: Option<MsgView>,
    now: u64,
    next: AppView,
)
    requires
        app.wf(),
        app.receives(root, msg, now, next),
        app.display_progress.num * 100 <= app.display_progress.den * 99,
        next.initial_loading,
    ensures
        next.display_progress.num * 100 <= next.display_progress.den * 99,
{
}

/// Once the scan of the disk is over, all of it is shown as scanned.
pub proof fn progress_is_complete(app: AppView, root: Seq<PartView>, now: u64, next: AppView)
    requires
        app.scans.dom().contains(root),
        app.scans[root],
        app.receives(root, Some(MsgView::Done), now, next),
    ensures
        next.display_progress == (Fraction { num: 1, den: 1 }),
        !next.initial_loading,
        next.scan_end == Some(now),
        !next.scans.dom().contains(root),
{
}

/// The bytes accounted for never fall.
pub proof fn scanned_bytes_never_fall(
    app: AppView,
    root: Seq<PartView>,
    msg: Option<MsgView>,
    now: u64,
    next: AppView,
)
    requires
        app.wf(),
        app.receives(root, msg, now, next),
    ensures
        app.scanned_bytes <= next.scanned_bytes <= u64::MAX,
{
}

/// The message of one scan does not touch another scan.
pub proof fn other_scans_go_on(
    app: AppView,
    root: Seq<PartView>,
    msg: Option<MsgView>,
    now: u64,
    next: AppView,
    other: Seq<PartView>,
)
    requires
        app.receives(root, msg, now, next),
        other != root || msg != Some(MsgView::Done),
    ensures
        next.scans.dom().contains(other) <==> app.scans.dom().contains(other),
        app.scans.dom().contains(other) ==> next.scans[other] == app.scans[other],
{
}

} // verus!
