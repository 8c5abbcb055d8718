//! What the tree holds after the messages of a scan: what is on the disk.
use vstd::prelude::*;

use crate::children::{
    holds, with_node, with_node_holds, with_size, with_size_holds, without_path, without_path_holds,
};
use crate::explorer::{AppView, DiskView, Fraction};
use crate::listing::{Meta, NameView, Snapshot};
use crate::path::{child_has_parent, child_of, parent_of, PartView};
use crate::report::{
    dir_outputs, directory_head, entry_outputs, names_outputs, scan_outputs, Output,
};
use crate::scan::node_of;
use crate::tree::{MsgView, NodeView};

verus! {

/// Whether a message names the directory that its entry lies in.
pub open spec fn is_proper(msg: Option<MsgView>) -> bool {
    msg matches Some(MsgView::Entry { parent, node }) ==> parent_of(node.path) == Some(parent)
}

/// A list after the size of the directory at `path` arrived.
pub open spec fn resized_list(list: Seq<NodeView>, path: Seq<PartView>, size: nat) -> Seq<NodeView> {
    if size == 0 {
        without_path(list, path)
    } else {
        with_size(list, path, size)
    }
}

/// The entries that are known of `dir` after a message.
pub open spec fn children_after(
    app: AppView,
    msg: Option<MsgView>,
    dir: Seq<PartView>,
) -> Seq<NodeView> {
    match msg {
        Some(MsgView::Entry { parent, node }) => if dir == parent {
            with_node(app.children(dir), node)
        } else {
            app.children(dir)
        },
        Some(MsgView::SizeReady { path, size }) => resized_list(app.children(dir), path, size),
        _ => app.children(dir),
    }
}

/// At the start each entry is filed under the directory that it lies in.
pub proof fn start_is_well_filed(disks: Seq<DiskView>)
    ensures
        AppView::start(disks).wf(),
        AppView::start(disks).well_filed(),
{
}

/// So it is after a disk was selected.
pub proof fn selecting_is_well_filed(
    app: AppView,
    mount_point: Seq<PartView>,
    path: Seq<PartView>,
    now: u64,
)
    ensures
        app.selecting(mount_point, path, now).wf(),
        app.selecting(mount_point, path, now).well_filed(),
{
}

/// So it stays when a directory is folded or unfolded.
pub proof fn toggling_stays_well_filed(app: AppView, path: Seq<PartView>)
    requires
        app.wf(),
        app.well_filed(),
    ensures
        app.toggling(path).wf(),
        app.toggling(path).well_filed(),
{
    let next = app.toggling(path);
    assert forall|dir: Seq<PartView>, i: int|
        next.cache.dom().contains(dir) && 0 <= i < next.cache[dir].len() implies parent_of(
        (#[trigger] next.cache[dir][i]).path,
    ) == Some(dir) by {
        assert(app.cache[dir][i] == next.cache[dir][i]);
    }
}

/// If each entry is filed under the directory that it lies in, a message changes what is known of
/// a directory in one way only: an entry is added to the directory that it names; a size goes to
/// the one entry of its path, and takes it out if it is 0.
pub proof fn message_changes_children(
    app: AppView,
    root: Seq<PartView>,
    msg: Option<MsgView>,
    now: u64,
    next: AppView,
    dir: Seq<PartView>,
)
    requires
        app.wf(),
        app.well_filed(),
        app.receives(root, msg, now, next),
    ensures
        next.children(dir) == children_after(app, msg, dir),
{
    if let Some(MsgView::SizeReady { path, size }) = msg {
        let list = app.children(dir);
        assert(crate::children::list_wf(list));
        without_path_holds(list, path);
        with_size_holds(list, path, size);
        if size > 0 && app.cache.dom().contains(dir) && holds(list, path) {
            let k = choose|k: int| 0 <= k < list.len() && (#[trigger] list[k]).path == path;
            assert(parent_of(app.cache[dir][k].path) == Some(dir));
            assert(!(next.cache == app.cache && forall|d: Seq<PartView>| #[trigger]
                app.cache.dom().contains(d) ==> !holds(app.cache[d], path)));
            let home = choose|d: Seq<PartView>| #[trigger]
                app.cache.dom().contains(d) && holds(app.cache[d], path) && next.cache
                    == app.cache.insert(d, with_size(app.cache[d], path, size));
            let m = choose|m: int|
                0 <= m < app.cache[home].len() && (#[trigger] app.cache[home][m]).path == path;
            assert(parent_of(app.cache[home][m].path) == Some(home));
        }
        if size == 0 && !app.cache.dom().contains(dir) {
            assert(!holds(list, path));
        }
    }
}

/// Each entry stays filed under the directory that it lies in as long as the messages name that
/// directory.
pub proof fn message_keeps_well_filed(
    app: AppView,
    root: Seq<PartView>,
    msg: Option<MsgView>,
    now: u64,
    next: AppView,
)
    requires
        app.wf(),
        app.well_filed(),
        is_proper(msg),
        app.receives(root, msg, now, next),
    ensures
        next.wf(),
        next.well_filed(),
{
    assert forall|dir: Seq<PartView>| #[trigger] next.cache.dom().contains(dir) implies
        crate::children::list_wf(next.cache[dir]) && forall|i: int|
        0 <= i < next.cache[dir].len() ==> parent_of((#[trigger] next.cache[dir][i]).path) == Some(
            dir,
        ) by {
        message_changes_children(app, root, msg, now, next, dir);
        let list = app.children(dir);
        let after = next.cache[dir];
        assert(after == next.children(dir));
        assert(crate::children::list_wf(list));
        match msg {
            Some(MsgView::Entry { parent, node }) => {
                if !holds(list, node.path) {
                    with_node_holds(list, node);
                }
            },
            Some(MsgView::SizeReady { path, size }) => {
                without_path_holds(list, path);
                with_size_holds(list, path, size);
            },
            _ => {},
        }
        assert forall|i: int| 0 <= i < after.len() implies parent_of((#[trigger] after[i]).path)
            == Some(dir) by {
            let n = after[i];
            assert(after.contains(n));
            if list.contains(n) {
                let k = choose|k: int| 0 <= k < list.len() && list[k] == n;
                assert(parent_of(app.cache[dir][k].path) == Some(dir));
            } else if let Some(MsgView::SizeReady { path, size }) = msg {
                if size > 0 {
                    let k = choose|k: int|
                        0 <= k < list.len() && n == (NodeView { size, ..#[trigger] list[k] });
                    assert(parent_of(app.cache[dir][k].path) == Some(dir));
                }
            }
        }
    }
}

/// Whether `next` is the explorer after it was told something that a scan put out.
pub open spec fn takes(
    app: AppView,
    root: Seq<PartView>,
    out: Output,
    now: u64,
    next: AppView,
) -> bool {
    match out {
        Output::Send(msg) => app.receives(root, Some(msg), now, next),
        Output::Refresh => next == app,
    }
}

/// Whether `next` is the explorer after it was told all that a scan put out, in that order.
pub open spec fn takes_all(
    app: AppView,
    root: Seq<PartView>,
    out: Seq<Output>,
    now: u64,
    next: AppView,
) -> bool
    decreases out.len(),
{
    if out.len() == 0 {
        next == app
    } else {
        exists|mid: AppView|
            takes_all(app, root, out.drop_last(), now, mid) && #[trigger] takes(
                mid,
                root,
                out.last(),
                now,
                next,
            )
    }
}

/// There is a state between the first part of what a scan put out and the rest.
proof fn split(
    app: AppView,
    root: Seq<PartView>,
    a: Seq<Output>,
    b: Seq<Output>,
    now: u64,
    next: AppView,
) -> (mid: AppView)
    requires
        takes_all(app, root, a + b, now, next),
    ensures
        takes_all(app, root, a, now, mid),
        takes_all(mid, root, b, now, next),
    decreases b.len(),
{
    if b.len() == 0 {
        assert(a + b =~= a);
        next
    } else {
        let all = a + b;
        assert(all.drop_last() =~= a + b.drop_last());
        assert(all.last() == b.last());
        let before = choose|before: AppView|
            takes_all(app, root, all.drop_last(), now, before) && #[trigger] takes(
                before,
                root,
                all.last(),
                now,
                next,
            );
        let mid = split(app, root, a, b.drop_last(), now, before);
        assert(takes(before, root, b.last(), now, next));
        mid
    }
}

/// What is told first is taken first.
proof fn split_first(
    app: AppView,
    root: Seq<PartView>,
    out: Seq<Output>,
    now: u64,
    next: AppView,
) -> (mid: AppView)
    requires
        out.len() > 0,
        takes_all(app, root, out, now, next),
    ensures
        takes(app, root, out.first(), now, mid),
        takes_all(mid, root, out.drop_first(), now, next),
{
    let a = seq![out.first()];
    assert(a + out.drop_first() =~= out);
    let mid = split(app, root, a, out.drop_first(), now, next);
    assert(a.drop_last() =~= Seq::empty());
    let zero = choose|zero: AppView|
        takes_all(app, root, a.drop_last(), now, zero) && #[trigger] takes(
            zero,
            root,
            a.last(),
            now,
            mid,
        );
    assert(zero == app);
    mid
}

/// The entry of the tree that stands for one entry of `dir`: none for an empty file, an empty
/// directory, or what nothing can be told of.
pub open spec fn shown_entry(
    world: Snapshot,
    dir: Seq<PartView>,
    name: NameView,
    h: nat,
) -> Option<NodeView> {
    let path = child_of(dir, name.id);
    match world.kind(path) {
        Some(Meta::File(len)) => if len > 0 {
            Some(
                NodeView {
                    name: name.text,
                    path: dir.push(PartView::Name(name.id)),
                    size: len as nat,
                    is_dir: false,
                },
            )
        } else {
            None
        },
        Some(Meta::Dir) => {
            let size = world.bytes(path, (h - 1) as nat);
            if size > 0 {
                Some(
                    NodeView {
                        name: name.text,
                        path: dir.push(PartView::Name(name.id)),
                        size,
                        is_dir: true,
                    },
                )
            } else {
                None
            }
        },
        None => None,
    }
}

/// Whether no name is given twice.
pub open spec fn distinct_names(names: Seq<NameView>) -> bool {
    forall|i: int, j: int|
        0 <= i < j < names.len() ==> (#[trigger] names[i]).id != (#[trigger] names[j]).id
}

/// Whether no directory lists a name twice.
pub open spec fn names_are_distinct(world: Snapshot) -> bool {
    forall|dir: Seq<PartView>| #[trigger]
        world.listings.dom().contains(dir) ==> distinct_names(world.listings[dir])
}

/// Whether one of the names stands for the entry `node` of the tree.
pub open spec fn is_shown(
    world: Snapshot,
    dir: Seq<PartView>,
    names: Seq<NameView>,
    h: nat,
    node: NodeView,
) -> bool {
    exists|i: int| 0 <= i < names.len() && shown_entry(world, dir, #[trigger] names[i], h) == Some(node)
}

/// Whether the tree holds of `dir`, and of the directories below it that the scan opened, what is
/// on the disk: each file that is not empty, with its size, each directory that is not empty, with
/// the bytes of all files below it, and nothing else.
pub open spec fn shows(
    app: AppView,
    world: Snapshot,
    dir: Seq<PartView>,
    depth: nat,
    max_depth: nat,
    h: nat,
) -> bool
    decreases max_depth - depth,
{
    depth < max_depth && world.listings.dom().contains(dir) ==> {
        let names = world.listings[dir];
        &&& forall|node: NodeView| #[trigger]
            app.children(dir).contains(node) <==> is_shown(world, dir, names, h, node)
        &&& forall|i: int|
            0 <= i < names.len() && world.kind(child_of(dir, (#[trigger] names[i]).id)) == Some(
                Meta::Dir,
            ) ==> shows(
                app,
                world,
                child_of(dir, names[i].id),
                depth + 1,
                max_depth,
                (h - 1) as nat,
            )
    }
}

/// Whether nothing is known of `dir` and of what lies below it.
pub open spec fn knows_nothing_of(app: AppView, dir: Seq<PartView>) -> bool {
    forall|d: Seq<PartView>|
        dir.is_prefix_of(d) ==> (#[trigger] app.children(d)) == Seq::<NodeView>::empty()
}

/// A path lies below one entry of a directory only.
proof fn below_one(dir: Seq<PartView>, a: Seq<u8>, b: Seq<u8>, d: Seq<PartView>)
    requires
        child_of(dir, a).is_prefix_of(d),
        child_of(dir, b).is_prefix_of(d),
    ensures
        a == b,
{
    let n = dir.len() as int;
    assert(child_of(dir, a)[n] == PartView::Name(a));
    assert(child_of(dir, b)[n] == PartView::Name(b));
    assert(d.subrange(0, n + 1)[n] == d[n]);
}

/// What lies below an entry of a directory lies below the directory, and is not the directory.
proof fn below_child(dir: Seq<PartView>, name: Seq<u8>, d: Seq<PartView>)
    requires
        child_of(dir, name).is_prefix_of(d),
    ensures
        dir.is_prefix_of(d),
        d != dir,
{
    let child = child_of(dir, name);
    assert(d.subrange(0, dir.len() as int) =~= child.subrange(0, dir.len() as int));
    assert(child.subrange(0, dir.len() as int) =~= dir);
}

/// What the tree holds below `dir` is as it was if all lists there are.
proof fn shows_stays(
    app: AppView,
    next: AppView,
    world: Snapshot,
    dir: Seq<PartView>,
    depth: nat,
    max_depth: nat,
    h: nat,
)
    requires
        shows(app, world, dir, depth, max_depth, h),
        forall|d: Seq<PartView>|
            dir.is_prefix_of(d) ==> #[trigger] next.children(d) == app.children(d),
    ensures
        shows(next, world, dir, depth, max_depth, h),
    decreases max_depth - depth,
{
    if depth < max_depth && world.listings.dom().contains(dir) {
        let names = world.listings[dir];
        assert(dir.subrange(0, dir.len() as int) =~= dir);
        assert(next.children(dir) == app.children(dir));
        assert forall|i: int|
            0 <= i < names.len() && world.kind(child_of(dir, (#[trigger] names[i]).id)) == Some(
                Meta::Dir,
            ) implies shows(
            next,
            world,
            child_of(dir, names[i].id),
            depth + 1,
            max_depth,
            (h - 1) as nat,
        ) by {
            let child = child_of(dir, names[i].id);
            assert forall|d: Seq<PartView>| child.is_prefix_of(d) implies #[trigger] next.children(d)
                == app.children(d) by {
                below_child(dir, names[i].id, d);
            }
            shows_stays(app, next, world, child, depth + 1, max_depth, (h - 1) as nat);
        }
    }
}

/// The set without paths.
pub open spec fn no_paths() -> Set<Seq<PartView>> {
    Set::empty()
}

/// A count of bytes, as far as it fits in 64 bits.
pub open spec fn capped(bytes: nat) -> nat {
    if bytes <= u64::MAX {
        bytes
    } else {
        u64::MAX as nat
    }
}

/// Whether the scan of `root` is that of a disk whose used bytes are known, so that bytes count.
pub open spec fn counts_bytes(app: AppView, root: Seq<PartView>) -> bool {
    app.scans[root] && app.disk_used_bytes > 0
}

/// Whether the disk that is explored lies neither at `dir` nor below it.
spec fn disk_lies_outside(app: AppView, dir: Seq<PartView>) -> bool {
    app.root_path matches Some(disk) ==> !dir.is_prefix_of(disk)
}

/// The messages that a directory starts with put it into the tree with its size, or leave it out
/// if it is empty; no other list changes.
proof fn head_taken(
    app: AppView,
    root: Seq<PartView>,
    world: Snapshot,
    dir: Seq<PartView>,
    name: NameView,
    h: nat,
    now: u64,
    next: AppView,
)
    requires
        app.wf(),
        app.well_filed(),
        world.kind(child_of(dir, name.id)) == Some(Meta::Dir),
        !holds(app.children(dir), child_of(dir, name.id)),
        takes_all(app, root, directory_head(world, dir, name, h), now, next),
    ensures
        next.wf(),
        next.well_filed(),
        next.scans == app.scans,
        app.pending_sizes == no_paths() ==> next.pending_sizes == no_paths(),
        next.root_path == app.root_path,
        next.disk_used_bytes == app.disk_used_bytes,
        app.root_path != Some(dir) ==> next.scanned_bytes == app.scanned_bytes,
        app.root_path == Some(dir) && counts_bytes(app, root) ==> next.scanned_bytes == capped(
            app.scanned_bytes + world.bytes(child_of(dir, name.id), (h - 1) as nat),
        ),
        forall|node: NodeView| #[trigger]
            next.children(dir).contains(node) <==> app.children(dir).contains(node) || shown_entry(
                world,
                dir,
                name,
                h,
            ) == Some(node),
        forall|d: Seq<PartView>| d != dir ==> #[trigger] next.children(d) == app.children(d),
{
    let path = child_of(dir, name.id);
    let size = world.bytes(path, (h - 1) as nat);
    let node = node_of(dir, name, 0, true);
    let entry = MsgView::Entry { parent: dir, node };
    let ready = MsgView::SizeReady { path, size };
    let out = directory_head(world, dir, name, h);
    child_has_parent(dir, name.id);
    let one = split_first(app, root, out, now, next);
    let rest1 = out.drop_first();
    let two = split_first(one, root, rest1, now, next);
    let rest2 = rest1.drop_first();
    let three = split_first(two, root, rest2, now, next);
    let rest3 = rest2.drop_first();
    let four = split_first(three, root, rest3, now, next);
    assert(rest3.drop_first().len() == 0);
    assert(next == four && four == three && two == one);
    assert(app.receives(root, Some(entry), now, one));
    assert(one.receives(root, Some(ready), now, next));
    assert(app.pending_sizes.insert(path).remove(path) =~= app.pending_sizes.remove(path));
    assert(no_paths().remove(path) =~= no_paths());
    message_keeps_well_filed(app, root, Some(entry), now, one);
    message_keeps_well_filed(one, root, Some(ready), now, next);
    message_changes_children(app, root, Some(entry), now, one, dir);
    message_changes_children(one, root, Some(ready), now, next, dir);
    let list = app.children(dir);
    let with = one.children(dir);
    assert(crate::children::list_wf(list));
    assert(crate::children::list_wf(with));
    with_node_holds(list, node);
    without_path_holds(with, path);
    with_size_holds(with, path, size);
    assert forall|n: NodeView| #[trigger] next.children(dir).contains(n) <==> list.contains(n)
        || shown_entry(world, dir, name, h) == Some(n) by {
        if list.contains(n) {
            let k = choose|k: int| 0 <= k < list.len() && list[k] == n;
            assert(list[k].path != path);
        }
        assert(with.contains(n) <==> list.contains(n) || n == node);
        if size > 0 {
            assert(with.contains(node));
            let at = choose|at: int| 0 <= at < with.len() && with[at] == node;
            assert(with[at] == node);
            let sized = node_of(dir, name, size, true);
            assert(sized == (NodeView { size, ..with[at] }));
            if n.path == path && exists|k: int|
                0 <= k < with.len() && n == (NodeView { size, ..#[trigger] with[k] }) {
                let k = choose|k: int|
                    0 <= k < with.len() && n == (NodeView { size, ..#[trigger] with[k] });
                assert(with[k].path == path);
                if k < at {
                    assert(with[k].path != with[at].path);
                } else if at < k {
                    assert(with[at].path != with[k].path);
                }
            }
        }
    }
    assert forall|d: Seq<PartView>| d != dir implies #[trigger] next.children(d) == app.children(
        d,
    ) by {
        message_changes_children(app, root, Some(entry), now, one, d);
        message_changes_children(one, root, Some(ready), now, next, d);
        let other = one.children(d);
        assert(crate::children::list_wf(other));
        without_path_holds(other, path);
        with_size_holds(other, path, size);
        if holds(other, path) {
            let k = choose|k: int| 0 <= k < other.len() && (#[trigger] other[k]).path == path;
            assert(parent_of(one.cache[d][k].path) == Some(d));
        }
    }
}

/// What a scan puts out for one entry puts the entry into the tree, with what lies below it, and
/// touches nothing else.
proof fn entry_taken(
    app: AppView,
    root: Seq<PartView>,
    world: Snapshot,
    dir: Seq<PartView>,
    name: NameView,
    depth: nat,
    max_depth: nat,
    h: nat,
    now: u64,
    next: AppView,
)
    requires
        app.wf(),
        app.well_filed(),
        names_are_distinct(world),
        depth < max_depth,
        world.kind(child_of(dir, name.id)) == Some(Meta::Dir) ==> h > 0,
        !holds(app.children(dir), child_of(dir, name.id)),
        knows_nothing_of(app, child_of(dir, name.id)),
        takes_all(
            app,
            root,
            entry_outputs(world, dir, name, depth, max_depth, h),
            now,
            next,
        ),
        world.kind(child_of(dir, name.id)) == Some(Meta::Dir) ==> world.fits(
            child_of(dir, name.id),
            (h - 1) as nat,
        ),
    ensures
        next.wf(),
        next.well_filed(),
        next.scans == app.scans,
        app.pending_sizes == no_paths() ==> next.pending_sizes == no_paths(),
        next.root_path == app.root_path,
        next.disk_used_bytes == app.disk_used_bytes,
        disk_lies_outside(app, dir) ==> next.scanned_bytes == app.scanned_bytes,
        app.root_path == Some(dir) && counts_bytes(app, root) ==> next.scanned_bytes == capped(
            app.scanned_bytes + world.bytes_at(child_of(dir, name.id), h),
        ),
        forall|node: NodeView| #[trigger]
            next.children(dir).contains(node) <==> app.children(dir).contains(node) || shown_entry(
                world,
                dir,
                name,
                h,
            ) == Some(node),
        world.kind(child_of(dir, name.id)) == Some(Meta::Dir) ==> shows(
            next,
            world,
            child_of(dir, name.id),
            depth + 1,
            max_depth,
            (h - 1) as nat,
        ),
        forall|d: Seq<PartView>|
            d != dir && !child_of(dir, name.id).is_prefix_of(d) ==> #[trigger] next.children(d)
                == app.children(d),
    decreases max_depth - depth, 0nat, 0nat,
{
    let path = child_of(dir, name.id);
    let out = entry_outputs(world, dir, name, depth, max_depth, h);
    let list = app.children(dir);
    assert(crate::children::list_wf(list));
    child_has_parent(dir, name.id);
    match world.kind(path) {
        None => {},
        Some(Meta::File(len)) => {
            if len > 0 {
                let node = node_of(dir, name, len as nat, false);
                let entry = MsgView::Entry { parent: dir, node };
                let one = split_first(app, root, out, now, next);
                let two = split_first(one, root, out.drop_first(), now, next);
                assert(out.drop_first().drop_first().len() == 0);
                assert(next == two && two == one);
                assert(app.receives(root, Some(entry), now, next));
                message_keeps_well_filed(app, root, Some(entry), now, next);
                with_node_holds(list, node);
                assert forall|d: Seq<PartView>| true implies #[trigger] next.children(d)
                    == children_after(app, Some(entry), d) by {
                    message_changes_children(app, root, Some(entry), now, next, d);
                }
            }
        },
        Some(Meta::Dir) => {
            let head = directory_head(world, dir, name, h);
            let inner = dir_outputs(world, path, depth + 1, max_depth, (h - 1) as nat);
            let last = seq![Output::Refresh];
            let two = split(app, root, head + inner, last, now, next);
            let one = split(app, root, head, inner, now, two);
            let three = split_first(two, root, last, now, next);
            assert(last.drop_first().len() == 0);
            assert(next == three && three == two);
            head_taken(app, root, world, dir, name, h, now, one);
            assert(disk_lies_outside(app, dir) || app.root_path == Some(dir)
                ==> disk_lies_outside(one, path)) by {
                if let Some(disk) = app.root_path {
                    if path.is_prefix_of(disk) {
                        below_child(dir, name.id, disk);
                    }
                }
            }
            assert(disk_lies_outside(app, dir) ==> app.root_path != Some(dir)) by {
                assert(dir.subrange(0, dir.len() as int) =~= dir);
            }
            assert forall|d: Seq<PartView>| path.is_prefix_of(d) implies (#[trigger] one.children(d))
                == Seq::<NodeView>::empty() by {
                below_child(dir, name.id, d);
                assert(app.children(d) == Seq::<NodeView>::empty());
            }
            dir_taken(
                one,
                root,
                world,
                path,
                depth + 1,
                max_depth,
                (h - 1) as nat,
                now,
                next,
            );
            assert(!path.is_prefix_of(dir)) by {
                if path.is_prefix_of(dir) {
                    below_child(dir, name.id, dir);
                }
            }
            assert(next.children(dir) == one.children(dir));
        },
    }
}

/// What a scan puts out for some entries of a directory puts them into the tree, with what lies
/// below them, and touches nothing else.
proof fn names_taken(
    app: AppView,
    root: Seq<PartView>,
    world: Snapshot,
    dir: Seq<PartView>,
    names: Seq<NameView>,
    depth: nat,
    max_depth: nat,
    h: nat,
    now: u64,
    next: AppView,
)
    requires
        app.wf(),
        app.well_filed(),
        names_are_distinct(world),
        distinct_names(names),
        depth < max_depth,
        forall|i: int|
            0 <= i < names.len() && world.kind(child_of(dir, (#[trigger] names[i]).id)) == Some(
                Meta::Dir,
            ) ==> h > 0 && world.fits(child_of(dir, names[i].id), (h - 1) as nat),
        forall|i: int|
            0 <= i < names.len() ==> !holds(
                app.children(dir),
                child_of(dir, (#[trigger] names[i]).id),
            ) && knows_nothing_of(app, child_of(dir, names[i].id)),
        takes_all(
            app,
            root,
            names_outputs(world, dir, names, depth, max_depth, h),
            now,
            next,
        ),
    ensures
        next.wf(),
        next.well_filed(),
        next.scans == app.scans,
        app.pending_sizes == no_paths() ==> next.pending_sizes == no_paths(),
        next.root_path == app.root_path,
        next.disk_used_bytes == app.disk_used_bytes,
        disk_lies_outside(app, dir) ==> next.scanned_bytes == app.scanned_bytes,
        app.root_path == Some(dir) && counts_bytes(app, root) ==> next.scanned_bytes == capped(
            app.scanned_bytes + world.bytes_of(dir, names, h),
        ),
        forall|node: NodeView| #[trigger]
            next.children(dir).contains(node) <==> app.children(dir).contains(node) || is_shown(
                world,
                dir,
                names,
                h,
                node,
            ),
        forall|i: int|
            0 <= i < names.len() && world.kind(child_of(dir, (#[trigger] names[i]).id)) == Some(
                Meta::Dir,
            ) ==> shows(
                next,
                world,
                child_of(dir, names[i].id),
                depth + 1,
                max_depth,
                (h - 1) as nat,
            ),
        forall|d: Seq<PartView>|
            d != dir && (forall|i: int|
                0 <= i < names.len() ==> !child_of(dir, (#[trigger] names[i]).id).is_prefix_of(d))
                ==> #[trigger] next.children(d) == app.children(d),
    decreases max_depth - depth, 1nat, names.len(),
{
    if names.len() > 0 {
        let name = names.first();
        let rest = names.drop_first();
        let path = child_of(dir, name.id);
        assert(names[0] == name);
        let mid = split(
            app,
            root,
            entry_outputs(world, dir, name, depth, max_depth, h),
            names_outputs(world, dir, rest, depth, max_depth, h),
            now,
            next,
        );
        entry_taken(app, root, world, dir, name, depth, max_depth, h, now, mid);
        assert forall|i: int| 0 <= i < rest.len() implies !holds(
            mid.children(dir),
            child_of(dir, (#[trigger] rest[i]).id),
        ) && knows_nothing_of(mid, child_of(dir, rest[i].id)) by {
            let other = child_of(dir, rest[i].id);
            assert(rest[i] == names[i + 1]);
            assert(names[0].id != names[i + 1].id);
            assert(!holds(app.children(dir), other));
            if holds(mid.children(dir), other) {
                let list = mid.children(dir);
                let k = choose|k: int| 0 <= k < list.len() && (#[trigger] list[k]).path == other;
                assert(list.contains(list[k]));
                if app.children(dir).contains(list[k]) {
                    let m = choose|m: int|
                        0 <= m < app.children(dir).len() && app.children(dir)[m] == list[k];
                    assert(app.children(dir)[m].path == other);
                } else {
                    crate::path::child_names_differ(dir, name.id, rest[i].id);
                }
            }
            assert(knows_nothing_of(app, other));
            assert forall|d: Seq<PartView>| other.is_prefix_of(d) implies (#[trigger] mid.children(
                d,
            )) == Seq::<NodeView>::empty() by {
                below_child(dir, rest[i].id, d);
                if path.is_prefix_of(d) {
                    below_one(dir, name.id, rest[i].id, d);
                }
                assert(app.children(d) == Seq::<NodeView>::empty());
            }
        }
        assert forall|i: int|
            0 <= i < rest.len() && world.kind(child_of(dir, (#[trigger] rest[i]).id)) == Some(
                Meta::Dir,
            ) implies h > 0 && world.fits(child_of(dir, rest[i].id), (h - 1) as nat) by {
            assert(rest[i] == names[i + 1]);
        }
        assert(distinct_names(rest)) by {
            assert forall|i: int, j: int| 0 <= i < j < rest.len() implies (#[trigger] rest[i]).id
                != (#[trigger] rest[j]).id by {
                assert(names[i + 1].id != names[j + 1].id);
            }
        }
        names_taken(mid, root, world, dir, rest, depth, max_depth, h, now, next);
        assert forall|node: NodeView| #[trigger] next.children(dir).contains(node)
            <==> app.children(dir).contains(node) || is_shown(world, dir, names, h, node) by {
            assert(mid.children(dir).contains(node) <==> app.children(dir).contains(node)
                || shown_entry(world, dir, name, h) == Some(node));
            if is_shown(world, dir, rest, h, node) {
                let i = choose|i: int|
                    0 <= i < rest.len() && shown_entry(world, dir, #[trigger] rest[i], h) == Some(
                        node,
                    );
                assert(names[i + 1] == rest[i]);
            }
            if is_shown(world, dir, names, h, node) {
                let i = choose|i: int|
                    0 <= i < names.len() && shown_entry(world, dir, #[trigger] names[i], h) == Some(
                        node,
                    );
                if i > 0 {
                    assert(rest[i - 1] == names[i]);
                }
            }
        }
        assert forall|i: int|
            0 <= i < names.len() && world.kind(child_of(dir, (#[trigger] names[i]).id)) == Some(
                Meta::Dir,
            ) implies shows(
            next,
            world,
            child_of(dir, names[i].id),
            depth + 1,
            max_depth,
            (h - 1) as nat,
        ) by {
            if i > 0 {
                assert(rest[i - 1] == names[i]);
            } else {
                assert forall|d: Seq<PartView>| path.is_prefix_of(d) implies #[trigger] next.children(
                    d,
                ) == mid.children(d) by {
                    below_child(dir, name.id, d);
                    assert forall|k: int| 0 <= k < rest.len() implies !child_of(
                        dir,
                        (#[trigger] rest[k]).id,
                    ).is_prefix_of(d) by {
                        assert(rest[k] == names[k + 1]);
                        assert(names[0].id != names[k + 1].id);
                        if child_of(dir, rest[k].id).is_prefix_of(d) {
                            below_one(dir, name.id, rest[k].id, d);
                        }
                    }
                }
                shows_stays(mid, next, world, path, depth + 1, max_depth, (h - 1) as nat);
            }
        }
        assert forall|d: Seq<PartView>|
            d != dir && (forall|i: int|
                0 <= i < names.len() ==> !child_of(dir, (#[trigger] names[i]).id).is_prefix_of(
                    d,
                )) implies #[trigger] next.children(d) == app.children(d) by {
            assert(!child_of(dir, names[0].id).is_prefix_of(d));
            assert forall|k: int| 0 <= k < rest.len() implies !child_of(
                dir,
                (#[trigger] rest[k]).id,
            ).is_prefix_of(d) by {
                assert(rest[k] == names[k + 1]);
            }
        }
    }
}

/// What a scan puts out for a directory puts what it holds into the tree, and touches nothing else.
proof fn dir_taken(
    app: AppView,
    root: Seq<PartView>,
    world: Snapshot,
    dir: Seq<PartView>,
    depth: nat,
    max_depth: nat,
    h: nat,
    now: u64,
    next: AppView,
)
    requires
        app.wf(),
        app.well_filed(),
        names_are_distinct(world),
        world.fits(dir, h),
        knows_nothing_of(app, dir),
        takes_all(app, root, dir_outputs(world, dir, depth, max_depth, h), now, next),
    ensures
        next.wf(),
        next.well_filed(),
        next.scans == app.scans,
        app.pending_sizes == no_paths() ==> next.pending_sizes == no_paths(),
        next.root_path == app.root_path,
        next.disk_used_bytes == app.disk_used_bytes,
        disk_lies_outside(app, dir) ==> next.scanned_bytes == app.scanned_bytes,
        app.root_path == Some(dir) && counts_bytes(app, root) && depth < max_depth
            ==> next.scanned_bytes == capped(app.scanned_bytes + world.bytes(dir, h)),
        shows(next, world, dir, depth, max_depth, h),
        forall|d: Seq<PartView>|
            !dir.is_prefix_of(d) ==> #[trigger] next.children(d) == app.children(d),
    decreases max_depth - depth, 2nat, 0nat,
{
    if depth < max_depth && world.listings.dom().contains(dir) {
        let names = world.listings[dir];
        let count = seq![Output::Send(MsgView::DirCount)];
        let out = names_outputs(world, dir, names, depth, max_depth, h);
        let mid = split(app, root, count, out, now, next);
        let one = split_first(app, root, count, now, mid);
        assert(count.drop_first().len() == 0);
        assert(mid == one && one == app);
        assert(dir.subrange(0, dir.len() as int) =~= dir);
        assert(app.children(dir) == Seq::<NodeView>::empty());
        assert forall|i: int| 0 <= i < names.len() implies !holds(
            app.children(dir),
            child_of(dir, (#[trigger] names[i]).id),
        ) && knows_nothing_of(app, child_of(dir, names[i].id)) by {
            let child = child_of(dir, names[i].id);
            assert forall|d: Seq<PartView>| child.is_prefix_of(d) implies (#[trigger] app.children(
                d,
            )) == Seq::<NodeView>::empty() by {
                below_child(dir, names[i].id, d);
            }
        }
        names_taken(app, root, world, dir, names, depth, max_depth, h, now, next);
        assert forall|d: Seq<PartView>| !dir.is_prefix_of(d) implies #[trigger] next.children(d)
            == app.children(d) by {
            assert forall|i: int| 0 <= i < names.len() implies !child_of(
                dir,
                (#[trigger] names[i]).id,
            ).is_prefix_of(d) by {
                if child_of(dir, names[i].id).is_prefix_of(d) {
                    below_child(dir, names[i].id, d);
                }
            }
        }
    }
}

/// After the explorer, which knew nothing of the directory at `path`, was told all that a scan of
/// it put out, the tree holds what is in the directory, down to the depth of the scan. Nothing else
/// in it has changed, and the scan is no longer under way.
pub proof fn tree_shows_directory(
    app: AppView,
    world: Snapshot,
    path: Seq<PartView>,
    max_depth: nat,
    h: nat,
    now: u64,
    next: AppView,
)
    requires
        app.wf(),
        app.well_filed(),
        names_are_distinct(world),
        world.fits(path, h),
        knows_nothing_of(app, path),
        takes_all(app, path, scan_outputs(world, path, max_depth, h), now, next),
    ensures
        next.wf(),
        next.well_filed(),
        shows(next, world, path, 0, max_depth, h),
        forall|d: Seq<PartView>|
            !path.is_prefix_of(d) ==> #[trigger] next.children(d) == app.children(d),
        next.scans == app.scans.remove(path),
        app.pending_sizes == no_paths() ==> next.pending_sizes == no_paths(),
        app.scans[path] ==> next.display_progress == (Fraction { num: 1, den: 1 })
            && !next.initial_loading,
{
    let last = seq![Output::Send(MsgView::Done), Output::Refresh];
    let mid = split(
        app,
        path,
        dir_outputs(world, path, 0, max_depth, h),
        last,
        now,
        next,
    );
    dir_taken(app, path, world, path, 0, max_depth, h, now, mid);
    let one = split_first(mid, path, last, now, next);
    let two = split_first(one, path, last.drop_first(), now, next);
    assert(last.drop_first().drop_first().len() == 0);
    assert(next == two && two == one);
    message_keeps_well_filed(mid, path, Some(MsgView::Done), now, next);
    shows_stays(mid, next, world, path, 0, max_depth, h);
    assert forall|d: Seq<PartView>| !path.is_prefix_of(d) implies #[trigger] next.children(d)
        == app.children(d) by {
        assert(next.children(d) == mid.children(d));
    }
}

/// After a disk was selected and the explorer was told all that the scan of it put out, the tree
/// holds what is on the disk, down to the depth of the scan; no size is pending, no scan is under
/// way, and all of the disk is shown as scanned.
pub proof fn tree_shows_disk(
    app: AppView,
    world: Snapshot,
    mount_point: Seq<PartView>,
    path: Seq<PartView>,
    max_depth: nat,
    h: nat,
    start: u64,
    end: u64,
    next: AppView,
)
    requires
        names_are_distinct(world),
        world.fits(path, h),
        takes_all(
            app.selecting(mount_point, path, start),
            path,
            scan_outputs(world, path, max_depth, h),
            end,
            next,
        ),
    ensures
        next.wf(),
        next.well_filed(),
        shows(next, world, path, 0, max_depth, h),
        next.pending_sizes == no_paths(),
        next.scans == Map::<Seq<PartView>, bool>::empty(),
        next.display_progress == (Fraction { num: 1, den: 1 }),
        !next.initial_loading,
{
    let fresh = app.selecting(mount_point, path, start);
    selecting_is_well_filed(app, mount_point, path, start);
    tree_shows_directory(fresh, world, path, max_depth, h, end, next);
    assert(fresh.scans.remove(path) =~= Map::<Seq<PartView>, bool>::empty());
}

/// After a disk of which bytes are used was selected and the explorer was told all that the scan of
/// it put out, the bytes accounted for are those of the files on the disk, each file counted once:
/// the size of a directory includes what lies below it, and counts only if the directory lies
/// directly in the root.
pub proof fn bytes_count_once(
    app: AppView,
    world: Snapshot,
    mount_point: Seq<PartView>,
    path: Seq<PartView>,
    max_depth: nat,
    h: nat,
    start: u64,
    end: u64,
    next: AppView,
)
    requires
        names_are_distinct(world),
        world.fits(path, h),
        max_depth > 0,
        app.selecting(mount_point, path, start).disk_used_bytes > 0,
        takes_all(
            app.selecting(mount_point, path, start),
            path,
            scan_outputs(world, path, max_depth, h),
            end,
            next,
        ),
    ensures
        next.scanned_bytes == capped(world.bytes(path, h)),
{
    let fresh = app.selecting(mount_point, path, start);
    selecting_is_well_filed(app, mount_point, path, start);
    let last = seq![Output::Send(MsgView::Done), Output::Refresh];
    let mid = split(
        fresh,
        path,
        dir_outputs(world, path, 0, max_depth, h),
        last,
        end,
        next,
    );
    dir_taken(fresh, path, world, path, 0, max_depth, h, end, mid);
    let one = split_first(mid, path, last, end, next);
    let two = split_first(one, path, last.drop_first(), end, next);
    assert(last.drop_first().drop_first().len() == 0);
    assert(next == two && two == one);
}

} // verus!
