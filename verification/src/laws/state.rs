//! What each event does to the explorer, field by field.
use vstd::prelude::*;
use vstd::utf8::encode_utf8;

use crate::children::{holds, list_wf, with_node};
use crate::explorer::{space_at, AppView, DiskView, PREFETCH_DEPTH};
use crate::laws::order::{not_behind, sorted_by_names};
use crate::order::{lowercase, sort_keys, sorted_from, sorting_exists};
use crate::path::{parent_of, PartView};
use crate::render::Row;
use crate::screen::Screen;
use crate::tree::{MsgView, NodeView};

verus! {

/// Whether `path` is that of an entry of `dir`.
pub open spec fn lies_in(path: Seq<PartView>, dir: Seq<PartView>) -> bool {
    &&& path.len() == dir.len() + 1
    &&& path.take(dir.len() as int) == dir
    &&& !(path[dir.len() as int] is Root)
    &&& !(path[dir.len() as int] is Prefix)
}

proof fn parent_is_where_it_lies(path: Seq<PartView>, dir: Seq<PartView>)
    ensures
        parent_of(path) == Some(dir) <==> lies_in(path, dir),
{
    if path.len() > 0 {
        assert(path.drop_last() =~= path.take(path.len() - 1));
    }
}

/// Whether bytes at `path`, told by the scan of `root`, count toward the progress: the scan is that
/// of the disk, bytes of the disk are used, and the path lies directly in the root of the disk.
pub open spec fn counts(app: AppView, root: Seq<PartView>, path: Seq<PartView>) -> bool {
    &&& app.scans[root]
    &&& app.disk_used_bytes > 0
    &&& app.root_path matches Some(disk)
    &&& lies_in(path, disk)
}

/// Whether `next` accounts for `size` bytes more than `app`, and shows it: the progress becomes the
/// part of the used bytes that is accounted for, but 99 percent at most, and never falls.
pub open spec fn counted(app: AppView, next: AppView, size: nat) -> bool {
    let sum = app.scanned_bytes + size;
    let used = app.disk_used_bytes;
    let old = app.display_progress;
    let new = next.display_progress;
    &&& sum <= u64::MAX ==> next.scanned_bytes == sum
    &&& sum > u64::MAX ==> next.scanned_bytes == u64::MAX
    &&& new.den > 0
    &&& next.scanned_bytes * 100 <= used * 99 ==> {
        &&& old.num * used >= next.scanned_bytes * old.den ==> new == old
        &&& old.num * used < next.scanned_bytes * old.den ==> new.num * used == next.scanned_bytes
            * new.den
    }
    &&& next.scanned_bytes * 100 > used * 99 ==> {
        &&& old.num * 100 >= 99 * old.den ==> new == old
        &&& old.num * 100 < 99 * old.den ==> new.num * 100 == 99 * new.den
    }
}

/// Whether nothing is counted.
pub open spec fn nothing_counted(app: AppView, next: AppView) -> bool {
    next.scanned_bytes == app.scanned_bytes && next.display_progress == app.display_progress
}

proof fn counting_reads(
    app: AppView,
    root: Seq<PartView>,
    path: Seq<PartView>,
    size: nat,
    filed: AppView,
)
    requires
        app.wf(),
        filed == (AppView { cache: filed.cache, pending_sizes: filed.pending_sizes, ..app }),
    ensures
        ({
            let next = filed.counting(app.scans[root], path, size);
            &&& next == (AppView {
                scanned_bytes: next.scanned_bytes,
                display_progress: next.display_progress,
                ..filed
            })
            &&& counts(app, root, path) ==> counted(app, next, size)
            &&& !counts(app, root, path) ==> nothing_counted(app, next)
        }),
{
    if let Some(disk) = app.root_path {
        parent_is_where_it_lies(path, disk);
    }
    let next = filed.counting(app.scans[root], path, size);
    if counts(app, root, path) {
        let s = next.scanned_bytes;
        let u = app.disk_used_bytes;
        assert(u * s == s * u) by (nonlinear_arith);
    }
}

/// At the start nothing is known, nothing is scanned and nothing is shown; a disk that is the only
/// one is selected, under the path at which it is explored.
pub proof fn start_reads(disks: Seq<DiskView>)
    ensures
        ({
            let app = AppView::start(disks);
            &&& app.disks == disks
            &&& app.root_path is None
            &&& forall|p: Seq<PartView>| !app.expanded.contains(p)
            &&& forall|p: Seq<PartView>| !app.cache.dom().contains(p)
            &&& forall|p: Seq<PartView>| !app.scans.dom().contains(p)
            &&& forall|p: Seq<PartView>| !app.pending_sizes.contains(p)
            &&& !app.initial_loading
            &&& app.display_progress.num == 0
            &&& app.scanned_bytes == 0
            &&& app.disk_used_bytes == 0
            &&& app.scan_start is None
            &&& app.scan_end is None
            &&& disks.len() == 1 ==> app.selected_disk == Some(disks[0].root)
            &&& disks.len() != 1 ==> app.selected_disk is None
        }),
{
}

/// No space is found where no disk is mounted; otherwise it is that of the first disk there.
proof fn space_reads(disks: Seq<DiskView>, path: Seq<PartView>)
    ensures
        (forall|j: int| 0 <= j < disks.len() ==> (#[trigger] disks[j]).mount_point != path)
            ==> space_at(disks, path) == (0u64, 0u64),
        forall|i: int|
            0 <= i < disks.len() && (#[trigger] disks[i]).mount_point == path && (forall|j: int|
                0 <= j < i ==> (#[trigger] disks[j]).mount_point != path) ==> space_at(disks, path)
                == (disks[i].total_space, disks[i].available_space),
    decreases disks.len(),
{
    if disks.len() > 0 {
        let rest = disks.drop_first();
        space_reads(rest, path);
        assert(disks[0] == disks.first());
        assert forall|i: int|
            0 <= i < disks.len() && (#[trigger] disks[i]).mount_point == path && (forall|j: int|
                0 <= j < i ==> (#[trigger] disks[j]).mount_point != path) implies space_at(
            disks,
            path,
        ) == (disks[i].total_space, disks[i].available_space) by {
            if i > 0 {
                assert(disks[0].mount_point != path);
                assert(rest[i - 1] == disks[i]);
                assert forall|j: int| 0 <= j < i - 1 implies (#[trigger] rest[j]).mount_point
                    != path by {
                    assert(rest[j] == disks[j + 1]);
                }
            }
        }
        if forall|j: int| 0 <= j < disks.len() ==> (#[trigger] disks[j]).mount_point != path {
            assert(disks[0].mount_point != path);
            assert forall|j: int| 0 <= j < rest.len() implies (#[trigger] rest[j]).mount_point
                != path by {
                assert(rest[j] == disks[j + 1]);
            }
        }
    }
}

/// Selecting a disk leaves nothing of what was known. Its root is explored and unfolded, its scan is
/// the only one under way, and its used bytes are those of the first disk mounted at the place that
/// was picked, or none.
pub proof fn selecting_reads(
    app: AppView,
    mount_point: Seq<PartView>,
    root: Seq<PartView>,
    now: u64,
)
    ensures
        ({
            let next = app.selecting(mount_point, root, now);
            &&& next.disks == app.disks
            &&& next.root_path == Some(root)
            &&& next.selected_disk == Some(root)
            &&& forall|p: Seq<PartView>| next.expanded.contains(p) <==> p == root
            &&& forall|p: Seq<PartView>| !next.cache.dom().contains(p)
            &&& forall|p: Seq<PartView>| next.scans.dom().contains(p) <==> p == root
            &&& next.scans[root]
            &&& forall|p: Seq<PartView>| !next.pending_sizes.contains(p)
            &&& next.initial_loading
            &&& next.display_progress.num == 0
            &&& next.display_progress.den > 0
            &&& next.scanned_bytes == 0
            &&& next.scan_start == Some(now)
            &&& next.scan_end is None
            &&& (forall|j: int|
                0 <= j < app.disks.len() ==> (#[trigger] app.disks[j]).mount_point != mount_point)
                ==> next.disk_used_bytes == 0
            &&& forall|i: int|
                0 <= i < app.disks.len() && (#[trigger] app.disks[i]).mount_point == mount_point && (
                forall|j: int|
                    0 <= j < i ==> (#[trigger] app.disks[j]).mount_point != mount_point) ==> {
                    &&& app.disks[i].total_space >= app.disks[i].available_space
                        ==> next.disk_used_bytes + app.disks[i].available_space
                        == app.disks[i].total_space
                    &&& app.disks[i].total_space < app.disks[i].available_space
                        ==> next.disk_used_bytes == 0
                }
        }),
{
    space_reads(app.disks, mount_point);
}

/// The space that is shown is that of the first disk mounted at the path of the selected one.
pub proof fn disk_space_reads(app: AppView)
    ensures
        app.selected_disk is None ==> app.disk_space() == (0u64, 0u64),
        app.selected_disk matches Some(path) ==> {
            &&& (forall|j: int|
                0 <= j < app.disks.len() ==> (#[trigger] app.disks[j]).mount_point != path)
                ==> app.disk_space() == (0u64, 0u64)
            &&& forall|i: int|
                0 <= i < app.disks.len() && (#[trigger] app.disks[i]).mount_point == path && (
                forall|j: int| 0 <= j < i ==> (#[trigger] app.disks[j]).mount_point != path)
                    ==> app.disk_space() == (
                    app.disks[i].total_space,
                    app.disks[i].available_space,
                )
        },
{
    if let Some(path) = app.selected_disk {
        space_reads(app.disks, path);
    }
}

/// A scan starts unless one of the same root is under way. It joins the others, and changes nothing
/// else.
pub proof fn scanning_reads(app: AppView, root: Seq<PartView>, is_initial: bool)
    ensures
        app.can_scan(root) <==> !app.scans.dom().contains(root),
        app.scans.dom().contains(root) ==> app.scanning(root, is_initial) == app,
        !app.scans.dom().contains(root) ==> {
            let next = app.scanning(root, is_initial);
            &&& next == (AppView { scans: next.scans, ..app })
            &&& next.scans[root] == is_initial
            &&& forall|p: Seq<PartView>|
                next.scans.dom().contains(p) <==> app.scans.dom().contains(p) || p == root
            &&& forall|p: Seq<PartView>|
                app.scans.dom().contains(p) ==> #[trigger] next.scans[p] == app.scans[p]
        },
{
}

/// A scan goes two levels down.
pub proof fn scans_go_two_levels_down()
    ensures
        PREFETCH_DEPTH == 2,
{
}

/// Folding or unfolding a directory turns it over, and no other.
///
/// When it is folded, what is known of a directory is forgotten if that lies more than two levels
/// below it, and of no other. When it is unfolded, all that is known stays; a scan of it starts if
/// nothing is known of it and none is under way.
pub proof fn toggling_reads(app: AppView, path: Seq<PartView>)
    ensures
        ({
            let next = app.toggling(path);
            let scans = !app.expanded.contains(path) && !app.cache.dom().contains(path)
                && !app.scans.dom().contains(path);
            &&& next == (AppView {
                expanded: next.expanded,
                cache: next.cache,
                scans: next.scans,
                ..app
            })
            &&& next.expanded.contains(path) <==> !app.expanded.contains(path)
            &&& forall|p: Seq<PartView>|
                p != path ==> (#[trigger] next.expanded.contains(p) <==> app.expanded.contains(p))
            &&& forall|dir: Seq<PartView>|
                (!app.expanded.contains(path) || dir.len() <= path.len() + 2 || dir.take(
                    path.len() as int,
                ) != path) ==> (#[trigger] next.cache.dom().contains(dir)
                    <==> app.cache.dom().contains(dir))
            &&& forall|dir: Seq<PartView>|
                app.expanded.contains(path) && dir.len() > path.len() + 2 && dir.take(
                    path.len() as int,
                ) == path ==> !#[trigger] next.cache.dom().contains(dir)
            &&& forall|dir: Seq<PartView>| #[trigger]
                next.cache.dom().contains(dir) ==> next.cache[dir] == app.cache[dir]
            &&& app.toggle_scans(path) <==> scans
            &&& forall|p: Seq<PartView>| #[trigger]
                next.scans.dom().contains(p) <==> app.scans.dom().contains(p) || (scans && p
                    == path)
            &&& forall|p: Seq<PartView>|
                app.scans.dom().contains(p) ==> #[trigger] next.scans[p] == app.scans[p]
            &&& scans ==> !next.scans[path]
        }),
{
    let next = app.toggling(path);
    let n = path.len() as int;
    assert forall|dir: Seq<PartView>| dir.len() >= n implies (#[trigger] dir.take(n) == path
        <==> path.is_prefix_of(dir)) by {
        assert(dir.take(n) =~= dir.subrange(0, n));
    }
    assert forall|dir: Seq<PartView>| dir.len() > n + 2 && dir.take(n) == path
        && app.expanded.contains(path) implies !#[trigger] next.cache.dom().contains(dir) by {}
}

/// The entries that are known of a directory.
pub open spec fn entries_of(app: AppView, dir: Seq<PartView>) -> Seq<NodeView> {
    if app.cache.dom().contains(dir) {
        app.cache[dir]
    } else {
        Seq::empty()
    }
}

/// Whether an entry of the list has the given path.
pub open spec fn has_path(list: Seq<NodeView>, path: Seq<PartView>) -> bool {
    exists|i: int| 0 <= i < list.len() && (#[trigger] list[i]).path == path
}

/// Whether `new` is `old` with `node` in its place; `from` says where each entry came from, the new
/// one counting as the last.
pub open spec fn joined_by(
    old: Seq<NodeView>,
    node: NodeView,
    new: Seq<NodeView>,
    from: Seq<int>,
) -> bool {
    &&& new.len() == old.len() + 1
    &&& from.len() == new.len()
    &&& forall|i: int|
        0 <= i < from.len() ==> 0 <= #[trigger] from[i] <= old.len() && new[i] == (if from[i]
            < old.len() {
            old[from[i]]
        } else {
            node
        })
    &&& forall|i: int, j: int| 0 <= i < j < from.len() ==> #[trigger] from[i] != #[trigger] from[j]
    &&& forall|i: int, j: int|
        0 <= i < j < new.len() ==> (#[trigger] new[i]).is_dir || !(#[trigger] new[j]).is_dir
    &&& forall|i: int, j: int|
        0 <= i < j < new.len() && (#[trigger] new[i]).is_dir == (#[trigger] new[j]).is_dir
            ==> not_behind(
            encode_utf8(lowercase(new[i].name)),
            encode_utf8(lowercase(new[j].name)),
        )
    &&& forall|i: int, j: int|
        0 <= i < j < new.len() && (#[trigger] new[i]).is_dir == (#[trigger] new[j]).is_dir
            && encode_utf8(lowercase(new[i].name)) == encode_utf8(lowercase(new[j].name))
            ==> from[i] < from[j]
}

/// An entry that arrives.
///
/// A directory waits for its size. The entry joins the list of the directory that it is sent with,
/// unless an entry with its path is there; no other list changes. `from` says where each entry of
/// the list came from: the new one counts as the last. Directories stand before files, each in the
/// order of lower-case names, the same names in the order in which they came. A file that is new
/// and lies in the root of the disk counts.
pub proof fn entry_arrives(
    app: AppView,
    root: Seq<PartView>,
    parent: Seq<PartView>,
    node: NodeView,
    now: u64,
    next: AppView,
) -> (from: Seq<int>)
    requires
        app.wf(),
        app.receives(root, Some(MsgView::Entry { parent, node }), now, next),
    ensures
        next == (AppView {
            cache: next.cache,
            pending_sizes: next.pending_sizes,
            scanned_bytes: next.scanned_bytes,
            display_progress: next.display_progress,
            ..app
        }),
        forall|p: Seq<PartView>| #[trigger]
            next.pending_sizes.contains(p) <==> app.pending_sizes.contains(p) || (node.is_dir && p
                == node.path),
        forall|dir: Seq<PartView>| #[trigger]
            next.cache.dom().contains(dir) <==> app.cache.dom().contains(dir) || dir == parent,
        forall|dir: Seq<PartView>|
            app.cache.dom().contains(dir) && dir != parent ==> #[trigger] next.cache[dir]
                == app.cache[dir],
        has_path(entries_of(app, parent), node.path) ==> next.cache[parent] == entries_of(
            app,
            parent,
        ),
        !has_path(entries_of(app, parent), node.path) ==> joined_by(
            entries_of(app, parent),
            node,
            next.cache[parent],
            from,
        ),
        !has_path(entries_of(app, parent), node.path) && !node.is_dir && counts(
            app,
            root,
            node.path,
        ) ==> counted(app, next, node.size),
        has_path(entries_of(app, parent), node.path) || node.is_dir || !counts(
            app,
            root,
            node.path,
        ) ==> nothing_counted(app, next),
{
    let old = app.children(parent);
    let new = next.cache[parent];
    let all = old.push(node);
    let filed = AppView {
        pending_sizes: if node.is_dir {
            app.pending_sizes.insert(node.path)
        } else {
            app.pending_sizes
        },
        cache: app.cache.insert(parent, with_node(old, node)),
        ..app
    };
    counting_reads(app, root, node.path, node.size, filed);
    assert(list_wf(old));
    assert(new == with_node(old, node));
    if holds(old, node.path) {
        Seq::empty()
    } else {
        let order = sorting_exists(sort_keys(all));
        let sorted = crate::order::arranged(all, order);
        assert(sorted_from(all, sorted, sort_keys(all)));
        assert(sorted_from(all, new, sort_keys(all)));
        sorted_by_names(all, new)
    }
}

/// The size of a directory that arrives.
///
/// The directory waits for it no longer. If the size is 0, each list loses the entry of that path
/// and keeps the others in their order. Otherwise one list that holds the path, if there is one,
/// has the size in the entry of that path, and nothing else changes. If the directory lies in the
/// root of the disk, its size counts.
pub proof fn size_arrives(
    app: AppView,
    root: Seq<PartView>,
    path: Seq<PartView>,
    size: nat,
    now: u64,
    next: AppView,
)
    requires
        app.wf(),
        app.receives(root, Some(MsgView::SizeReady { path, size }), now, next),
    ensures
        next == (AppView {
            cache: next.cache,
            pending_sizes: next.pending_sizes,
            scanned_bytes: next.scanned_bytes,
            display_progress: next.display_progress,
            ..app
        }),
        forall|p: Seq<PartView>| #[trigger]
            next.pending_sizes.contains(p) <==> app.pending_sizes.contains(p) && p != path,
        forall|dir: Seq<PartView>| #[trigger]
            next.cache.dom().contains(dir) <==> app.cache.dom().contains(dir),
        size == 0 ==> forall|dir: Seq<PartView>| #[trigger]
            app.cache.dom().contains(dir) ==> next.cache[dir] == app.cache[dir].filter(
                |n: NodeView| n.path != path,
            ),
        size > 0 ==> (next.cache == app.cache && forall|dir: Seq<PartView>, i: int|
            app.cache.dom().contains(dir) && 0 <= i < app.cache[dir].len() ==> (
            #[trigger] app.cache[dir][i]).path != path) || exists|home: Seq<PartView>| #[trigger]
            app.cache.dom().contains(home) && resized_in(app, next, home, path, size),
        counts(app, root, path) ==> counted(app, next, size),
        !counts(app, root, path) ==> nothing_counted(app, next),
{
    let filed = AppView {
        pending_sizes: app.pending_sizes.remove(path),
        cache: next.cache,
        ..app
    };
    counting_reads(app, root, path, size, filed);
    let keep = |n: NodeView| n.path != path;
    if size == 0 {
        assert forall|dir: Seq<PartView>| #[trigger] app.cache.dom().contains(
            dir,
        ) implies next.cache[dir] == app.cache[dir].filter(keep) by {
            assert(next.cache[dir] == crate::children::without_path(app.cache[dir], path));
        }
    } else if exists|dir: Seq<PartView>| #[trigger]
        app.cache.dom().contains(dir) && holds(app.cache[dir], path) && next.cache
            == app.cache.insert(
            dir,
            crate::children::with_size(app.cache[dir], path, size),
        ) {
        let home = choose|dir: Seq<PartView>| #[trigger]
            app.cache.dom().contains(dir) && holds(app.cache[dir], path) && next.cache
                == app.cache.insert(
                dir,
                crate::children::with_size(app.cache[dir], path, size),
            );
        let i = choose|i: int|
            0 <= i < app.cache[home].len() && (#[trigger] app.cache[home][i]).path == path;
        assert(app.cache[home][i].path == path);
        assert(resized_in(app, next, home, path, size));
    } else {
        assert(next.cache == app.cache);
        assert forall|dir: Seq<PartView>, i: int|
            app.cache.dom().contains(dir) && 0 <= i < app.cache[dir].len() implies (
        #[trigger] app.cache[dir][i]).path != path by {
            assert(!holds(app.cache[dir], path));
        }
    }
}

/// Whether `next` differs from `app` in the lists in this only: in that of `home`, which holds it,
/// the entry of `path` has the given size.
pub open spec fn resized_in(
    app: AppView,
    next: AppView,
    home: Seq<PartView>,
    path: Seq<PartView>,
    size: nat,
) -> bool {
    let old = app.cache[home];
    let new = next.cache[home];
    &&& exists|i: int| 0 <= i < old.len() && (#[trigger] old[i]).path == path
    &&& forall|dir: Seq<PartView>|
        dir != home && app.cache.dom().contains(dir) ==> #[trigger] next.cache[dir]
            == app.cache[dir]
    &&& new.len() == old.len()
    &&& forall|i: int|
        0 <= i < old.len() ==> {
            &&& (#[trigger] new[i]).name == old[i].name
            &&& new[i].path == old[i].path
            &&& new[i].is_dir == old[i].is_dir
            &&& old[i].path == path ==> new[i].size == size
            &&& old[i].path != path ==> new[i].size == old[i].size
        }
}

/// A scan that says that it is over is no longer under way. If it is that of the disk, all of the
/// disk is shown as scanned, and the time is kept.
pub proof fn scan_ends(app: AppView, root: Seq<PartView>, now: u64, next: AppView)
    requires
        app.receives(root, Some(MsgView::Done), now, next),
    ensures
        next == (AppView {
            scans: next.scans,
            initial_loading: next.initial_loading,
            display_progress: next.display_progress,
            scan_end: next.scan_end,
            ..app
        }),
        forall|p: Seq<PartView>| #[trigger]
            next.scans.dom().contains(p) <==> app.scans.dom().contains(p) && p != root,
        forall|p: Seq<PartView>| p != root ==> #[trigger] next.scans[p] == app.scans[p],
        app.scans[root] ==> {
            &&& !next.initial_loading
            &&& next.display_progress.num == next.display_progress.den
            &&& next.display_progress.den > 0
            &&& next.scan_end == Some(now)
        },
        !app.scans[root] ==> {
            &&& next.initial_loading == app.initial_loading
            &&& next.display_progress == app.display_progress
            &&& next.scan_end == app.scan_end
        },
{
}

/// No message, or one that says that a directory was opened, changes nothing.
pub proof fn nothing_arrives(app: AppView, root: Seq<PartView>, now: u64, next: AppView)
    ensures
        app.receives(root, None, now, next) <==> next == app,
        app.receives(root, Some(MsgView::DirCount), now, next) <==> next == app,
{
}

/// The messages of several scans are taken one after the other, each by the state that the one
/// before it led to.
pub proof fn messages_are_taken_in_turn(
    app: AppView,
    inbox: Seq<(Seq<PartView>, Option<MsgView>)>,
    now: u64,
    next: AppView,
) -> (states: Seq<AppView>)
    requires
        app.receives_all(inbox, now, next),
    ensures
        states.len() == inbox.len() + 1,
        states[0] == app,
        states[inbox.len() as int] == next,
        forall|i: int|
            #![trigger inbox[i]]
            0 <= i < inbox.len() ==> states[i].receives(inbox[i].0, inbox[i].1, now, states[i + 1]),
    decreases inbox.len(),
{
    if inbox.len() == 0 {
        seq![app]
    } else {
        let mid = choose|mid: AppView|
            app.receives_all(inbox.drop_last(), now, mid) && #[trigger] mid.receives(
                inbox.last().0,
                inbox.last().1,
                now,
                next,
            );
        let before = messages_are_taken_in_turn(app, inbox.drop_last(), now, mid);
        let states = before.push(next);
        assert forall|i: int|
            #![trigger inbox[i]]
            0 <= i < inbox.len() implies states[i].receives(
            inbox[i].0,
            inbox[i].1,
            now,
            states[i + 1],
        ) by {
            if i < inbox.len() - 1 {
                assert(inbox.drop_last()[i] == inbox[i]);
                assert(states[i] == before[i]);
                assert(states[i + 1] == before[i + 1]);
            }
        }
        states
    }
}

/// The seconds that the scan of the disk has taken are the whole seconds from its start to its end,
/// or to now while it goes on.
pub proof fn elapsed_seconds_read(app: AppView, now: u64)
    ensures
        app.scan_start is None ==> app.elapsed_seconds(now) == 0,
        app.scan_start matches Some(start) ==> {
            let until = match app.scan_end {
                Some(end) => end,
                None => now,
            };
            let seconds = app.elapsed_seconds(now);
            &&& until >= start ==> seconds * 1_000_000_000 <= until - start < (seconds + 1)
                * 1_000_000_000
            &&& until < start ==> seconds == 0
        },
{
}

/// The disks are offered as long as none is selected; after that the tree is shown, with the
/// progress while the disk is scanned.
pub proof fn screen_reads(app: AppView)
    ensures
        app.screen() == Screen::Picker <==> app.selected_disk is None,
        app.selected_disk is Some && app.initial_loading ==> app.screen() == (Screen::Tree {
            with_progress: true,
        }),
        app.selected_disk is Some && !app.initial_loading ==> app.screen() == (Screen::Tree {
            with_progress: false,
        }),
{
}

/// A disk that is chosen is selected, unless its mount point is the path that is selected.
pub proof fn choosing_reads(
    app: AppView,
    mount_point: Seq<PartView>,
    root: Seq<PartView>,
    now: u64,
)
    ensures
        app.selected_disk == Some(mount_point) ==> app.choosing(mount_point, root, now) == app,
        app.selected_disk != Some(mount_point) ==> app.choosing(mount_point, root, now)
            == app.selecting(mount_point, root, now),
{
}

/// A click on a file changes nothing; one on a directory folds or unfolds it.
pub proof fn clicking_reads(app: AppView, row: Row)
    ensures
        !row@.is_dir ==> app.clicking(row@.path, row@.is_dir) == app,
        row@.is_dir ==> app.clicking(row@.path, row@.is_dir) == app.toggling(row@.path),
{
}

/// Each entry is filed under the directory that it lies in if and only if its path is that of the
/// directory, with one component more.
pub proof fn well_filed_reads(app: AppView)
    ensures
        app.well_filed() <==> forall|dir: Seq<PartView>, i: int|
            app.cache.dom().contains(dir) && 0 <= i < app.cache[dir].len() ==> lies_in(
                (#[trigger] app.cache[dir][i]).path,
                dir,
            ),
{
    assert forall|dir: Seq<PartView>, i: int|
        app.cache.dom().contains(dir) && 0 <= i < app.cache[dir].len() implies (parent_of(
        (#[trigger] app.cache[dir][i]).path,
    ) == Some(dir) <==> lies_in(app.cache[dir][i].path, dir)) by {
        parent_is_where_it_lies(app.cache[dir][i].path, dir);
    }
}

} // verus!
