//! What a scan says of a file system, and what it leaves out.
use vstd::prelude::*;

use crate::laws::size::{goes_down, reached, reached_step_by_step};
use crate::listing::{Meta, NameView, Snapshot};
use crate::path::{child_of, PartView};
use crate::report::{
    all_in_place, dir_outputs, directory_head, entry_outputs, is_size_of, names_outputs,
    outputs_in_place, scan_outputs, scan_reports, Output,
};
use crate::scan::{refused_leaves_directory, without_frame, ScanView, StepView};
use crate::tree::{MsgView, NodeView};

verus! {

/// A scan comes to an end. Before the last two things that it does, which are to say that it is over
/// and to have the window drawn again, each message is in its place: see
/// [`crate::report::in_place`].
pub proof fn messages_are_in_place(
    world: Snapshot,
    root: Seq<PartView>,
    max_depth: nat,
    h: nat,
) -> (n: nat)
    requires
        world.fits(root, h),
    ensures
        ({
            let scan = ScanView::start(root, max_depth);
            let out = scan.outputs(world, n);
            let m = out.len() - 2;
            &&& scan.run(world, n).tasks.len() == 0
            &&& m >= 0
            &&& out[m] == Output::Send(MsgView::Done)
            &&& out[m + 1] is Refresh
            &&& all_in_place(world, root, max_depth, out.take(m))
        }),
{
    let n = scan_reports(world, root, max_depth, h);
    let all = dir_outputs(world, root, 0, max_depth, h);
    let out = scan_outputs(world, root, max_depth, h);
    outputs_in_place(world, root, 0, max_depth, h);
    assert(out.take(out.len() - 2) =~= all);
    n
}

/// What a scan puts out for one of some names stands in what it puts out for all of them.
proof fn part_of_names(
    world: Snapshot,
    dir: Seq<PartView>,
    names: Seq<NameView>,
    i: int,
    depth: nat,
    max_depth: nat,
    h: nat,
) -> (at: int)
    requires
        depth < max_depth,
        0 <= i < names.len(),
    ensures
        ({
            let part = entry_outputs(world, dir, names[i], depth, max_depth, h);
            let out = names_outputs(world, dir, names, depth, max_depth, h);
            &&& 0 <= at
            &&& at + part.len() <= out.len()
            &&& forall|k: int| 0 <= k < part.len() ==> out[at + k] == #[trigger] part[k]
        }),
    decreases i,
{
    let first = entry_outputs(world, dir, names.first(), depth, max_depth, h);
    if i == 0 {
        assert(names[0] == names.first());
        0
    } else {
        let rest = names.drop_first();
        assert(rest[i - 1] == names[i]);
        let at = part_of_names(world, dir, rest, i - 1, depth, max_depth, h);
        let more = names_outputs(world, dir, rest, depth, max_depth, h);
        let part = entry_outputs(world, dir, names[i], depth, max_depth, h);
        let out = names_outputs(world, dir, names, depth, max_depth, h);
        assert(out == first + more);
        assert forall|k: int| 0 <= k < part.len() implies out[first.len() + at + k]
            == #[trigger] part[k] by {
            assert(more[at + k] == part[k]);
        }
        first.len() + at
    }
}

/// What a scan puts out for a directory that can be reached, and is not too deep, stands in what it
/// puts out for the one that it started from. Before it come the entry and the size of the
/// directory.
proof fn part_of_directory(
    world: Snapshot,
    top: Seq<PartView>,
    dir: Seq<PartView>,
    depth: nat,
    max_depth: nat,
    h: nat,
) -> (r: (int, nat))
    requires
        world.fits(top, h),
        reached(world, top, dir),
        depth + (dir.len() - top.len()) < max_depth,
    ensures
        ({
            let (at, left) = r;
            let below = (depth + (dir.len() - top.len())) as nat;
            let part = dir_outputs(world, dir, below, max_depth, left);
            let out = dir_outputs(world, top, depth, max_depth, h);
            &&& world.fits(dir, left)
            &&& 0 <= at
            &&& at + part.len() <= out.len()
            &&& forall|k: int| 0 <= k < part.len() ==> out[at + k] == #[trigger] part[k]
            &&& dir == top ==> at == 0
            &&& dir != top ==> at >= 2 && out[at - 1] is Refresh && (out[at - 2] matches Output::Send(
                MsgView::SizeReady { path, .. },
            ) && path == dir)
        }),
    decreases dir.len() - top.len(),
{
    let out = dir_outputs(world, top, depth, max_depth, h);
    if dir == top {
        (0, h)
    } else {
        assert(world.listings.dom().contains(top)) by {
            if dir.len() == top.len() {
                assert(dir.take(top.len() as int) =~= dir);
            }
            assert(goes_down(world, dir, top.len() as int));
        }
        reached_step_by_step(world, top, dir);
        let names = world.listings[top];
        let i = choose|i: int|
            0 <= i < names.len() && world.kind(child_of(top, (#[trigger] names[i]).id)) == Some(
                Meta::Dir,
            ) && reached(world, child_of(top, names[i].id), dir);
        let child = child_of(top, names[i].id);
        assert(h > 0 && world.fits(child, (h - 1) as nat));
        let (at, left) = part_of_directory(
            world,
            child,
            dir,
            depth + 1,
            max_depth,
            (h - 1) as nat,
        );
        let o = part_of_names(world, top, names, i, depth, max_depth, h);
        let head = directory_head(world, top, names[i], h);
        let inner = dir_outputs(world, child, depth + 1, max_depth, (h - 1) as nat);
        let one = entry_outputs(world, top, names[i], depth, max_depth, h);
        let all = names_outputs(world, top, names, depth, max_depth, h);
        assert(one =~= head + inner + seq![Output::Refresh]);
        assert(out =~= seq![Output::Send(MsgView::DirCount)] + all);
        assert forall|k: int| 0 <= k < one.len() implies out[1 + o + k] == #[trigger] one[k] by {
            assert(all[o + k] == one[k]);
        }
        let below = (depth + (dir.len() - top.len())) as nat;
        let part = dir_outputs(world, dir, below, max_depth, left);
        let start = 1 + o + 4 + at;
        assert forall|k: int| 0 <= k < part.len() implies out[start + k] == #[trigger] part[k] by {
            assert(inner[at + k] == part[k]);
            assert(one[4 + at + k] == inner[at + k]);
        }
        assert(one[4 + at - 1] == out[start - 1]);
        assert(one[4 + at - 2] == out[start - 2]);
        if at > 0 {
            assert(one[4 + at - 1] == inner[at - 1]);
            assert(one[4 + at - 2] == inner[at - 2]);
        }
        (start, left)
    }
}

/// The entry with the given name in a directory, as it is sent.
pub open spec fn sent_entry(
    dir: Seq<PartView>,
    name: NameView,
    size: nat,
    is_dir: bool,
) -> Output {
    Output::Send(
        MsgView::Entry {
            parent: dir,
            node: NodeView {
                name: name.text,
                path: dir.push(PartView::Name(name.id)),
                size,
                is_dir,
            },
        },
    )
}

/// A scan leaves nothing out. Of each directory that can be reached, and lies less than `max_depth`
/// levels below the root, it sends each file that is not empty, under its whole name and with its
/// size, and each directory, with its size to follow. It also says once that it opened the
/// directory: first of all for the root, and right after the size for any other.
pub proof fn nothing_is_left_out(
    world: Snapshot,
    root: Seq<PartView>,
    max_depth: nat,
    h: nat,
    dir: Seq<PartView>,
    i: int,
) -> (r: (nat, int, int))
    requires
        world.fits(root, h),
        reached(world, root, dir),
        dir.len() - root.len() < max_depth,
    ensures
        ({
            let (n, opened, k) = r;
            let scan = ScanView::start(root, max_depth);
            let out = scan.outputs(world, n);
            &&& scan.run(world, n).tasks.len() == 0
            &&& 0 <= opened < out.len()
            &&& out[opened] == Output::Send(MsgView::DirCount)
            &&& dir == root ==> opened == 0
            &&& dir != root ==> opened >= 2 && out[opened - 1] is Refresh && (out[opened
                - 2] matches Output::Send(MsgView::SizeReady { path, .. }) && path == dir)
            &&& 0 <= i < world.listings[dir].len() ==> {
                let name = world.listings[dir][i];
                let path = dir.push(PartView::Name(name.id));
                world.kinds.dom().contains(path) ==> match world.kinds[path] {
                    Meta::File(len) => len > 0 ==> {
                        &&& 0 <= k < out.len()
                        &&& out[k] == sent_entry(dir, name, len as nat, false)
                    },
                    Meta::Dir => {
                        &&& 0 <= k < out.len() - 2
                        &&& out[k] == sent_entry(dir, name, 0, true)
                        &&& out[k + 2] matches Output::Send(MsgView::SizeReady { path: p, size })
                        &&& p == path
                        &&& is_size_of(world, path, size)
                    },
                }
            }
        }),
{
    let n = scan_reports(world, root, max_depth, h);
    let all = dir_outputs(world, root, 0, max_depth, h);
    let out = scan_outputs(world, root, max_depth, h);
    let (at, left) = part_of_directory(world, root, dir, 0, max_depth, h);
    let depth = (dir.len() - root.len()) as nat;
    let part = dir_outputs(world, dir, depth, max_depth, left);
    let names = world.listings[dir];
    let inner = names_outputs(world, dir, names, depth, max_depth, left);
    assert(part =~= seq![Output::Send(MsgView::DirCount)] + inner);
    assert forall|k: int| 0 <= k < all.len() implies #[trigger] out[k] == all[k] by {}
    assert(all[at + 0] == part[0]);
    if 0 <= i < names.len() {
        let o = part_of_names(world, dir, names, i, depth, max_depth, left);
        let one = entry_outputs(world, dir, names[i], depth, max_depth, left);
        let k = at + 1 + o;
        let path = child_of(dir, names[i].id);
        assert forall|m: int| 0 <= m < one.len() implies out[k + m] == #[trigger] one[m] by {
            assert(inner[o + m] == one[m]);
            assert(part[1 + o + m] == inner[o + m]);
            assert(all[at + (1 + o + m)] == part[1 + o + m]);
        }
        match world.kind(path) {
            Some(Meta::Dir) => {
                let head = directory_head(world, dir, names[i], left);
                assert(one[0] == head[0]);
                assert(one[2] == head[2]);
                assert(left > 0 && world.fits(path, (left - 1) as nat));
                assert(is_size_of(world, path, world.bytes(path, (left - 1) as nat)));
                assert(out[k + 0] == one[0]);
            },
            Some(Meta::File(len)) => {
                if len > 0 {
                    assert(out[k + 0] == one[0]);
                }
            },
            None => {},
        }
        (n, at, k)
    } else {
        (n, at, 0)
    }
}

/// What a scan puts out for one of some names ends before that for a later one starts.
proof fn parts_of_names(
    world: Snapshot,
    dir: Seq<PartView>,
    names: Seq<NameView>,
    i: int,
    j: int,
    depth: nat,
    max_depth: nat,
    h: nat,
) -> (r: (int, int))
    requires
        depth < max_depth,
        0 <= i < j < names.len(),
    ensures
        ({
            let one = entry_outputs(world, dir, names[i], depth, max_depth, h);
            let two = entry_outputs(world, dir, names[j], depth, max_depth, h);
            let out = names_outputs(world, dir, names, depth, max_depth, h);
            &&& 0 <= r.0
            &&& r.0 + one.len() <= r.1
            &&& r.1 + two.len() <= out.len()
            &&& forall|k: int| 0 <= k < one.len() ==> out[r.0 + k] == #[trigger] one[k]
            &&& forall|k: int| 0 <= k < two.len() ==> out[r.1 + k] == #[trigger] two[k]
        }),
    decreases i,
{
    let rest = names.drop_first();
    let first = entry_outputs(world, dir, names.first(), depth, max_depth, h);
    let more = names_outputs(world, dir, rest, depth, max_depth, h);
    let one = entry_outputs(world, dir, names[i], depth, max_depth, h);
    let two = entry_outputs(world, dir, names[j], depth, max_depth, h);
    let out = names_outputs(world, dir, names, depth, max_depth, h);
    assert(out == first + more);
    assert(rest[j - 1] == names[j]);
    let n = first.len() as int;
    if i == 0 {
        assert(names[0] == names.first());
        let at = part_of_names(world, dir, rest, j - 1, depth, max_depth, h);
        assert forall|k: int| 0 <= k < two.len() implies out[n + at + k] == #[trigger] two[k] by {
            assert(more[at + k] == two[k]);
        }
        (0, n + at)
    } else {
        assert(rest[i - 1] == names[i]);
        let (a, b) = parts_of_names(world, dir, rest, i - 1, j - 1, depth, max_depth, h);
        assert forall|k: int| 0 <= k < one.len() implies out[n + a + k] == #[trigger] one[k] by {
            assert(more[a + k] == one[k]);
        }
        assert forall|k: int| 0 <= k < two.len() implies out[n + b + k] == #[trigger] two[k] by {
            assert(more[b + k] == two[k]);
        }
        (n + a, n + b)
    }
}

/// Whether anything is sent of the name in `dir`: not of an empty file, nor of what cannot be told.
pub open spec fn is_sent(world: Snapshot, dir: Seq<PartView>, name: NameView) -> bool {
    let path = dir.push(PartView::Name(name.id));
    world.kinds.dom().contains(path) && (world.kinds[path] matches Meta::File(len) ==> len > 0)
}

/// Of two names in one directory each is sent by a message of its own, in the order of the listing.
pub proof fn names_are_sent_one_by_one(
    world: Snapshot,
    root: Seq<PartView>,
    max_depth: nat,
    h: nat,
    dir: Seq<PartView>,
    i: int,
    j: int,
) -> (r: (nat, int, int))
    requires
        world.fits(root, h),
        reached(world, root, dir),
        dir.len() - root.len() < max_depth,
        0 <= i < j < world.listings[dir].len(),
        is_sent(world, dir, world.listings[dir][i]),
        is_sent(world, dir, world.listings[dir][j]),
    ensures
        ({
            let (n, a, b) = r;
            let scan = ScanView::start(root, max_depth);
            let out = scan.outputs(world, n);
            &&& scan.run(world, n).tasks.len() == 0
            &&& 0 <= a < b < out.len()
            &&& out[a] matches Output::Send(MsgView::Entry { parent, node })
            &&& parent == dir
            &&& node.name == world.listings[dir][i].text
            &&& node.path == dir.push(PartView::Name(world.listings[dir][i].id))
            &&& out[b] matches Output::Send(MsgView::Entry { parent: p, node: m })
            &&& p == dir
            &&& m.name == world.listings[dir][j].text
            &&& m.path == dir.push(PartView::Name(world.listings[dir][j].id))
        }),
{
    let n = scan_reports(world, root, max_depth, h);
    let all = dir_outputs(world, root, 0, max_depth, h);
    let out = scan_outputs(world, root, max_depth, h);
    let (at, left) = part_of_directory(world, root, dir, 0, max_depth, h);
    let depth = (dir.len() - root.len()) as nat;
    let part = dir_outputs(world, dir, depth, max_depth, left);
    let names = world.listings[dir];
    let inner = names_outputs(world, dir, names, depth, max_depth, left);
    assert(part =~= seq![Output::Send(MsgView::DirCount)] + inner);
    assert forall|k: int| 0 <= k < all.len() implies #[trigger] out[k] == all[k] by {}
    let (a, b) = parts_of_names(world, dir, names, i, j, depth, max_depth, left);
    let one = entry_outputs(world, dir, names[i], depth, max_depth, left);
    let two = entry_outputs(world, dir, names[j], depth, max_depth, left);
    assert forall|m: int| 0 <= m < inner.len() implies out[at + 1 + m] == #[trigger] inner[m] by {
        assert(part[1 + m] == inner[m]);
        assert(all[at + (1 + m)] == part[1 + m]);
    }
    assert(one.len() > 0 && one[0] is Send);
    assert(two.len() > 0 && two[0] is Send);
    assert(inner[a + 0] == one[0]);
    assert(inner[b + 0] == two[0]);
    (n, at + 1 + a, at + 1 + b)
}

/// Whether a scan comes to `p` before it comes to `q`: `p` is a directory above `q`, or, where the
/// two part, the component of `p` is listed before that of `q`.
pub open spec fn comes_before(world: Snapshot, p: Seq<PartView>, q: Seq<PartView>) -> bool {
    (p.len() < q.len() && q.take(p.len() as int) == p) || exists|m: int|
        #[trigger] parts_at(world, p, q, m)
}

/// Whether `p` and `q` part at position `m`, and the component of `p` there is listed before that of
/// `q`.
pub open spec fn parts_at(world: Snapshot, p: Seq<PartView>, q: Seq<PartView>, m: int) -> bool {
    &&& 0 <= m < p.len()
    &&& m < q.len()
    &&& p.take(m) == q.take(m)
    &&& world.listings.dom().contains(p.take(m))
    &&& exists|i: int, j: int|
        0 <= i < j < world.listings[p.take(m)].len() && p[m] == PartView::Name(
            (#[trigger] world.listings[p.take(m)][i]).id,
        ) && q[m] == PartView::Name((#[trigger] world.listings[p.take(m)][j]).id)
}

/// The path of the entry that is sent, if one is.
pub open spec fn entry_path(out: Output) -> Option<Seq<PartView>> {
    match out {
        Output::Send(MsgView::Entry { node, .. }) => Some(node.path),
        _ => None,
    }
}

/// Whether the entries are sent in the order in which a scan comes to them.
pub open spec fn in_order(world: Snapshot, out: Seq<Output>) -> bool {
    forall|a: int, b: int|
        0 <= a < b < out.len() && entry_path(#[trigger] out[a]) is Some && entry_path(
            #[trigger] out[b],
        ) is Some ==> comes_before(world, entry_path(out[a])->0, entry_path(out[b])->0)
}

/// Whether each entry is that of `path` or lies below it.
spec fn all_below(out: Seq<Output>, path: Seq<PartView>) -> bool {
    forall|a: int|
        0 <= a < out.len() && entry_path(#[trigger] out[a]) is Some ==> path.len() <= entry_path(
            out[a],
        )->0.len() && (entry_path(out[a])->0).take(path.len() as int) == path
}

proof fn names_in_order(
    world: Snapshot,
    dir: Seq<PartView>,
    off: int,
    depth: nat,
    max_depth: nat,
    h: nat,
)
    requires
        depth < max_depth,
        world.listings.dom().contains(dir),
        0 <= off <= world.listings[dir].len(),
    ensures
        ({
            let out = names_outputs(world, dir, world.listings[dir].skip(off), depth, max_depth, h);
            &&& in_order(world, out)
            &&& forall|a: int|
                0 <= a < out.len() && entry_path(#[trigger] out[a]) is Some ==> listed_from(
                    world,
                    dir,
                    off,
                    entry_path(out[a])->0,
                )
        }),
    decreases max_depth - depth, 0nat, world.listings[dir].len() - off,
{
    let all = world.listings[dir];
    let names = all.skip(off);
    let out = names_outputs(world, dir, names, depth, max_depth, h);
    if off < all.len() {
        let name = names.first();
        assert(name == all[off]);
        assert(names.drop_first() =~= all.skip(off + 1));
        let first = entry_outputs(world, dir, name, depth, max_depth, h);
        let rest = names_outputs(world, dir, all.skip(off + 1), depth, max_depth, h);
        assert(out == first + rest);
        names_in_order(world, dir, off + 1, depth, max_depth, h);
        entry_in_order(world, dir, name, depth, max_depth, h);
        let child = child_of(dir, name.id);
        let n = dir.len() as int;
        assert forall|a: int| 0 <= a < out.len() && entry_path(
            #[trigger] out[a],
        ) is Some implies listed_from(world, dir, off, entry_path(out[a])->0) by {
            if a < first.len() {
                assert(out[a] == first[a]);
                let p = entry_path(first[a])->0;
                assert(p.take(n) =~= p.take(n + 1).take(n));
                assert(child.take(n) =~= dir);
                assert(p[n] == p.take(n + 1)[n]);
                assert(all[off] == name);
            } else {
                assert(out[a] == rest[a - first.len()]);
                let p = entry_path(out[a])->0;
                assert(listed_from(world, dir, off + 1, p));
            }
        }
        assert forall|a: int, b: int|
            0 <= a < b < out.len() && entry_path(#[trigger] out[a]) is Some && entry_path(
                #[trigger] out[b],
            ) is Some implies comes_before(world, entry_path(out[a])->0, entry_path(out[b])->0) by {
            let p = entry_path(out[a])->0;
            let q = entry_path(out[b])->0;
            if b < first.len() {
                assert(out[a] == first[a]);
                assert(out[b] == first[b]);
            } else if a >= first.len() {
                assert(out[a] == rest[a - first.len()]);
                assert(out[b] == rest[b - first.len()]);
            } else {
                assert(out[a] == first[a]);
                assert(out[b] == rest[b - first.len()]);
                assert(listed_from(world, dir, off + 1, q));
                assert(p.take(n) =~= p.take(n + 1).take(n));
                assert(child.take(n) =~= dir);
                assert(p[n] == p.take(n + 1)[n]);
                let j = choose|j: int|
                    off + 1 <= j < all.len() && q[n] == PartView::Name((#[trigger] all[j]).id);
                assert(p[n] == PartView::Name(all[off].id));
                assert(parts_at(world, p, q, n));
            }
        }
    } else {
        assert(names.len() == 0);
        assert(out.len() == 0);
    }
}

/// Whether a path lies below an entry of `dir` that is listed at position `off` or later.
spec fn listed_from(
    world: Snapshot,
    dir: Seq<PartView>,
    off: int,
    path: Seq<PartView>,
) -> bool {
    &&& dir.len() < path.len()
    &&& path.take(dir.len() as int) == dir
    &&& exists|j: int|
        off <= j < world.listings[dir].len() && path[dir.len() as int] == PartView::Name(
            (#[trigger] world.listings[dir][j]).id,
        )
}

proof fn entry_in_order(
    world: Snapshot,
    dir: Seq<PartView>,
    name: NameView,
    depth: nat,
    max_depth: nat,
    h: nat,
)
    requires
        depth < max_depth,
    ensures
        in_order(world, entry_outputs(world, dir, name, depth, max_depth, h)),
        all_below(
            entry_outputs(world, dir, name, depth, max_depth, h),
            child_of(dir, name.id),
        ),
    decreases max_depth - depth, 0nat, 0nat,
{
    let path = child_of(dir, name.id);
    let out = entry_outputs(world, dir, name, depth, max_depth, h);
    let n = path.len() as int;
    assert(path.take(n) =~= path);
    if world.kind(path) == Some(Meta::Dir) {
        let head = directory_head(world, dir, name, h);
        let inner = dir_outputs(world, path, depth + 1, max_depth, (h - 1) as nat);
        assert(out =~= head + inner + seq![Output::Refresh]);
        directory_in_order(world, path, depth + 1, max_depth, (h - 1) as nat);
        let m = inner.len() as int;
        assert forall|a: int| 4 <= a < 4 + m implies #[trigger] out[a] == inner[a - 4] by {}
        assert forall|a: int| 0 <= a < out.len() && entry_path(#[trigger] out[a]) is Some implies a
            == 0 || 4 <= a < 4 + m by {
            if a < 4 {
                assert(out[a] == head[a]);
            }
        }
        assert(out[0] == head[0]);
        assert forall|a: int, b: int|
            0 <= a < b < out.len() && entry_path(#[trigger] out[a]) is Some && entry_path(
                #[trigger] out[b],
            ) is Some implies comes_before(world, entry_path(out[a])->0, entry_path(out[b])->0) by {
            assert(out[b] == inner[b - 4]);
            if a > 0 {
                assert(out[a] == inner[a - 4]);
            }
        }
    }
}

proof fn directory_in_order(
    world: Snapshot,
    dir: Seq<PartView>,
    depth: nat,
    max_depth: nat,
    h: nat,
)
    ensures
        in_order(world, dir_outputs(world, dir, depth, max_depth, h)),
        forall|a: int|
            0 <= a < dir_outputs(world, dir, depth, max_depth, h).len() && entry_path(
                #[trigger] dir_outputs(world, dir, depth, max_depth, h)[a],
            ) is Some ==> {
                let p = entry_path(dir_outputs(world, dir, depth, max_depth, h)[a])->0;
                dir.len() < p.len() && p.take(dir.len() as int) == dir
            },
    decreases max_depth - depth, 1nat, 0nat,
{
    let out = dir_outputs(world, dir, depth, max_depth, h);
    if depth < max_depth && world.listings.dom().contains(dir) {
        let names = world.listings[dir];
        assert(names.skip(0) =~= names);
        let inner = names_outputs(world, dir, names, depth, max_depth, h);
        assert(out =~= seq![Output::Send(MsgView::DirCount)] + inner);
        names_in_order(world, dir, 0, depth, max_depth, h);
        assert forall|a: int| 1 <= a < out.len() implies #[trigger] out[a] == inner[a - 1] by {}
        assert forall|a: int, b: int|
            0 <= a < b < out.len() && entry_path(#[trigger] out[a]) is Some && entry_path(
                #[trigger] out[b],
            ) is Some implies comes_before(world, entry_path(out[a])->0, entry_path(out[b])->0) by {
            assert(out[a] == inner[a - 1]);
            assert(out[b] == inner[b - 1]);
        }
        assert forall|a: int| 0 <= a < out.len() && entry_path(#[trigger] out[a]) is Some implies {
            let p = entry_path(out[a])->0;
            dir.len() < p.len() && p.take(dir.len() as int) == dir
        } by {
            assert(out[a] == inner[a - 1]);
            assert(listed_from(world, dir, 0, entry_path(inner[a - 1])->0));
        }
    }
}

/// A scan sends the entries in order: a directory before what lies in it, and all of that before the
/// entry that is listed behind the directory. If no directory lists a name twice, no path is sent
/// twice.
pub proof fn entries_are_in_order(
    world: Snapshot,
    root: Seq<PartView>,
    max_depth: nat,
    h: nat,
) -> (n: nat)
    requires
        world.fits(root, h),
    ensures
        ScanView::start(root, max_depth).run(world, n).tasks.len() == 0,
        in_order(world, ScanView::start(root, max_depth).outputs(world, n)),
{
    let n = scan_reports(world, root, max_depth, h);
    let all = dir_outputs(world, root, 0, max_depth, h);
    let out = scan_outputs(world, root, max_depth, h);
    directory_in_order(world, root, 0, max_depth, h);
    assert forall|a: int, b: int|
        0 <= a < b < out.len() && entry_path(#[trigger] out[a]) is Some && entry_path(
            #[trigger] out[b],
        ) is Some implies comes_before(world, entry_path(out[a])->0, entry_path(out[b])->0) by {
        assert(out[a] == all[a]);
        assert(out[b] == all[b]);
    }
    n
}

/// Whether it is said only in its place, from the given position on, that a directory was opened:
/// right after the size of a directory that can be read and has fewer than `limit` components.
pub open spec fn openings_in_place(
    world: Snapshot,
    limit: int,
    out: Seq<Output>,
    from: int,
) -> bool {
    forall|a: int|
        from <= a < out.len() && #[trigger] out[a] == Output::Send(MsgView::DirCount) ==> {
            &&& a >= 2
            &&& out[a - 1] is Refresh
            &&& out[a - 2] matches Output::Send(MsgView::SizeReady { path, .. })
            &&& world.listings.dom().contains(path)
            &&& path.len() < limit
        }
}

proof fn joined_openings(world: Snapshot, limit: int, a: Seq<Output>, b: Seq<Output>)
    requires
        openings_in_place(world, limit, a, 0),
        openings_in_place(world, limit, b, 0),
    ensures
        openings_in_place(world, limit, a + b, 0),
{
    let out = a + b;
    assert forall|k: int|
        0 <= k < out.len() && #[trigger] out[k] == Output::Send(MsgView::DirCount) implies {
        &&& k >= 2
        &&& out[k - 1] is Refresh
        &&& out[k - 2] matches Output::Send(MsgView::SizeReady { path, .. })
        &&& world.listings.dom().contains(path)
        &&& path.len() < limit
    } by {
        if k < a.len() {
            assert(out[k] == a[k]);
            assert(out[k - 1] == a[k - 1]);
            assert(out[k - 2] == a[k - 2]);
        } else {
            let m = k - a.len();
            assert(out[k] == b[m]);
            assert(out[k - 1] == b[m - 1]);
            assert(out[k - 2] == b[m - 2]);
        }
    }
}

proof fn directory_openings(
    world: Snapshot,
    limit: int,
    dir: Seq<PartView>,
    depth: nat,
    max_depth: nat,
    h: nat,
)
    requires
        limit == dir.len() + max_depth - depth,
    ensures
        openings_in_place(world, limit, dir_outputs(world, dir, depth, max_depth, h), 1),
        dir_outputs(world, dir, depth, max_depth, h).len() > 0 ==> world.listings.dom().contains(
            dir,
        ) && dir.len() < limit,
    decreases max_depth - depth, 1nat, 0nat,
{
    if depth < max_depth && world.listings.dom().contains(dir) {
        let names = world.listings[dir];
        let inner = names_outputs(world, dir, names, depth, max_depth, h);
        let out = dir_outputs(world, dir, depth, max_depth, h);
        assert(out =~= seq![Output::Send(MsgView::DirCount)] + inner);
        names_openings(world, limit, dir, names, depth, max_depth, h);
        assert forall|a: int|
            1 <= a < out.len() && #[trigger] out[a] == Output::Send(MsgView::DirCount) implies {
            &&& a >= 2
            &&& out[a - 1] is Refresh
            &&& out[a - 2] matches Output::Send(MsgView::SizeReady { path, .. })
            &&& world.listings.dom().contains(path)
            &&& path.len() < limit
        } by {
            assert(out[a] == inner[a - 1]);
            assert(out[a - 1] == inner[a - 2]);
            assert(out[a - 2] == inner[a - 3]);
        }
    }
}

proof fn names_openings(
    world: Snapshot,
    limit: int,
    dir: Seq<PartView>,
    names: Seq<NameView>,
    depth: nat,
    max_depth: nat,
    h: nat,
)
    requires
        depth < max_depth,
        limit == dir.len() + max_depth - depth,
    ensures
        openings_in_place(world, limit, names_outputs(world, dir, names, depth, max_depth, h), 0),
    decreases max_depth - depth, 0nat, names.len(),
{
    if names.len() > 0 {
        let name = names.first();
        let path = child_of(dir, name.id);
        let out = entry_outputs(world, dir, name, depth, max_depth, h);
        if world.kind(path) == Some(Meta::Dir) {
            let head = directory_head(world, dir, name, h);
            let inner = dir_outputs(world, path, depth + 1, max_depth, (h - 1) as nat);
            directory_openings(world, limit, path, depth + 1, max_depth, (h - 1) as nat);
            assert(out =~= head + inner + seq![Output::Refresh]);
            let m = inner.len() as int;
            assert forall|a: int| 4 <= a < 4 + m implies #[trigger] out[a] == inner[a - 4] by {}
            assert forall|a: int| 0 <= a < 4 implies #[trigger] out[a] == head[a] by {}
            assert forall|a: int|
                0 <= a < out.len() && #[trigger] out[a] == Output::Send(MsgView::DirCount) implies {
                &&& a >= 2
                &&& out[a - 1] is Refresh
                &&& out[a - 2] matches Output::Send(MsgView::SizeReady { path, .. })
                &&& world.listings.dom().contains(path)
                &&& path.len() < limit
            } by {
                if a == 4 {
                    assert(out[3] == head[3]);
                    assert(out[2] == head[2]);
                } else if a > 4 && a < 4 + m {
                    assert(out[a] == inner[a - 4]);
                    assert(out[a - 1] == inner[a - 5]);
                    assert(out[a - 2] == inner[a - 6]);
                } else if a < 4 {
                    assert(out[a] == head[a]);
                }
            }
        }
        names_openings(world, limit, dir, names.drop_first(), depth, max_depth, h);
        joined_openings(
            world,
            limit,
            out,
            names_outputs(world, dir, names.drop_first(), depth, max_depth, h),
        );
    }
}

/// That a directory was opened is said in two places only: first of all, of the root, if it can be
/// read, and right after the size of a directory that can be read and lies less than `max_depth`
/// levels below the root.
pub proof fn openings_are_in_place(
    world: Snapshot,
    root: Seq<PartView>,
    max_depth: nat,
    h: nat,
) -> (n: nat)
    requires
        world.fits(root, h),
    ensures
        ScanView::start(root, max_depth).run(world, n).tasks.len() == 0,
        openings_in_place(
            world,
            (root.len() + max_depth) as int,
            ScanView::start(root, max_depth).outputs(world, n),
            1,
        ),
        ScanView::start(root, max_depth).outputs(world, n)[0] == Output::Send(MsgView::DirCount)
            ==> world.listings.dom().contains(root) && max_depth > 0,
{
    let limit = (root.len() + max_depth) as int;
    let n = scan_reports(world, root, max_depth, h);
    let all = dir_outputs(world, root, 0, max_depth, h);
    let out = scan_outputs(world, root, max_depth, h);
    directory_openings(world, limit, root, 0, max_depth, h);
    assert forall|a: int|
        1 <= a < out.len() && #[trigger] out[a] == Output::Send(MsgView::DirCount) implies {
        &&& a >= 2
        &&& out[a - 1] is Refresh
        &&& out[a - 2] matches Output::Send(MsgView::SizeReady { path, .. })
        &&& world.listings.dom().contains(path)
        &&& path.len() < limit
    } by {
        assert(a < all.len());
        assert(out[a] == all[a]);
        assert(out[a - 1] == all[a - 1]);
        if a >= 2 {
            assert(out[a - 2] == all[a - 2]);
        }
    }
    n
}

/// How often the window is drawn again, less once for each entry, twice for each size, and once for
/// the end.
pub open spec fn balance(out: Seq<Output>) -> int
    decreases out.len(),
{
    if out.len() == 0 {
        0
    } else {
        balance(out.drop_last()) + match out.last() {
            Output::Refresh => 1int,
            Output::Send(MsgView::Entry { .. }) => -1,
            Output::Send(MsgView::SizeReady { .. }) => -2,
            Output::Send(MsgView::Done) => -1,
            Output::Send(MsgView::DirCount) => 0,
        }
    }
}

proof fn balance_joins(a: Seq<Output>, b: Seq<Output>)
    ensures
        balance(a + b) == balance(a) + balance(b),
    decreases b.len(),
{
    if b.len() == 0 {
        assert(a + b =~= a);
    } else {
        assert((a + b).drop_last() =~= a + b.drop_last());
        balance_joins(a, b.drop_last());
    }
}

proof fn names_balance(
    world: Snapshot,
    dir: Seq<PartView>,
    names: Seq<NameView>,
    depth: nat,
    max_depth: nat,
    h: nat,
)
    requires
        depth < max_depth,
    ensures
        balance(names_outputs(world, dir, names, depth, max_depth, h)) == 0,
    decreases max_depth - depth, 0nat, names.len(),
{
    reveal_with_fuel(balance, 5);
    if names.len() > 0 {
        let name = names.first();
        let path = child_of(dir, name.id);
        let out = entry_outputs(world, dir, name, depth, max_depth, h);
        match world.kind(path) {
            Some(Meta::Dir) => {
                let head = directory_head(world, dir, name, h);
                let inner = dir_outputs(world, path, depth + 1, max_depth, (h - 1) as nat);
                directory_balance(world, path, depth + 1, max_depth, (h - 1) as nat);
                balance_joins(head, inner);
                balance_joins(head + inner, seq![Output::Refresh]);
                assert(balance(head) == -1);
                assert(balance(seq![Output::Refresh]) == 1);
            },
            Some(Meta::File(len)) => {
                assert(balance(out) == 0);
            },
            None => {},
        }
        names_balance(world, dir, names.drop_first(), depth, max_depth, h);
        balance_joins(
            out,
            names_outputs(world, dir, names.drop_first(), depth, max_depth, h),
        );
    }
}

proof fn directory_balance(
    world: Snapshot,
    dir: Seq<PartView>,
    depth: nat,
    max_depth: nat,
    h: nat,
)
    ensures
        balance(dir_outputs(world, dir, depth, max_depth, h)) == 0,
    decreases max_depth - depth, 1nat, 0nat,
{
    reveal_with_fuel(balance, 2);
    if depth < max_depth && world.listings.dom().contains(dir) {
        let names = world.listings[dir];
        let count = seq![Output::Send(MsgView::DirCount)];
        names_balance(world, dir, names, depth, max_depth, h);
        assert(balance(count) == 0);
        balance_joins(count, names_outputs(world, dir, names, depth, max_depth, h));
    }
}

/// A scan has the window drawn again once for each entry, once more for each directory, once for
/// each size, and once for the end.
pub proof fn window_is_drawn_as_often(
    world: Snapshot,
    root: Seq<PartView>,
    max_depth: nat,
    h: nat,
) -> (n: nat)
    requires
        world.fits(root, h),
    ensures
        ScanView::start(root, max_depth).run(world, n).tasks.len() == 0,
        balance(ScanView::start(root, max_depth).outputs(world, n)) == 0,
{
    let n = scan_reports(world, root, max_depth, h);
    let end = seq![Output::Send(MsgView::Done), Output::Refresh];
    directory_balance(world, root, 0, max_depth, h);
    reveal_with_fuel(balance, 3);
    assert(balance(end) == 0);
    balance_joins(dir_outputs(world, root, 0, max_depth, h), end);
    n
}

/// The depth of the directory that a task belongs to; none for the last two.
pub open spec fn depth_of(task: StepView) -> Option<nat> {
    match task {
        StepView::Open { depth, .. } => Some(depth),
        StepView::Announce { depth } => Some(depth),
        StepView::Entries { depth, .. } => Some(depth),
        StepView::Offer { depth, .. } => Some(depth),
        StepView::Refresh { depth } => Some(depth),
        StepView::Measure { depth, .. } => Some(depth),
        StepView::Report { depth, .. } => Some(depth),
        StepView::Finish => None,
        StepView::LastRefresh => None,
    }
}

/// If an entry or a size is refused, the directory that is being read is left: the tasks on top that
/// belong to it, or to one that lies deeper, are dropped, and no others. If it is taken, the next
/// task follows. Whether any other message is taken does not matter.
pub proof fn refusal_leaves_the_directory(scan: ScanView)
    requires
        scan.tasks.len() > 0,
    ensures
        scan.sent(true).max_depth == scan.max_depth,
        scan.sent(false).max_depth == scan.max_depth,
        scan.sent(true).tasks == scan.tasks.take(scan.tasks.len() - 1),
        ({
            let last = scan.tasks[scan.tasks.len() - 1];
            let left = scan.sent(false).tasks;
            let n = left.len() as int;
            &&& !(last is Offer) && !(last is Report) ==> left == scan.tasks.take(
                scan.tasks.len() - 1,
            )
            &&& last is Offer || last is Report ==> {
                let depth = depth_of(last)->0;
                &&& n < scan.tasks.len()
                &&& left == scan.tasks.take(n)
                &&& forall|i: int|
                    n <= i < scan.tasks.len() ==> (depth_of(#[trigger] scan.tasks[i]) matches Some(
                        d,
                    ) && d >= depth)
                &&& n > 0 ==> (depth_of(scan.tasks[n - 1]) matches Some(d) ==> d < depth)
            }
        }),
{
    let rest = scan.tasks.drop_last();
    assert(rest =~= scan.tasks.take(scan.tasks.len() - 1));
    let last = scan.tasks.last();
    if last is Offer || last is Report {
        let depth = depth_of(last)->0;
        refused_leaves_directory(rest, depth);
        let left = without_frame(rest, depth);
        assert(left =~= scan.tasks.take(left.len() as int));
        assert forall|i: int| left.len() <= i < scan.tasks.len() implies (depth_of(
            #[trigger] scan.tasks[i],
        ) matches Some(d) && d >= depth) by {
            if i < rest.len() {
                assert(rest[i] == scan.tasks[i]);
                assert(rest[i].lies_within(depth));
            }
        }
        if left.len() > 0 {
            assert(left.last() == scan.tasks[left.len() - 1]);
        }
    }
}

/// Whether the depth of a task is how many levels its directory lies below `root`.
pub open spec fn lies_at_its_depth(root: Seq<PartView>, task: StepView) -> bool {
    match task {
        StepView::Open { path, depth } => path.len() == root.len() + depth,
        StepView::Entries { dir, depth, .. } => dir.len() == root.len() + depth,
        StepView::Offer { parent, node, depth } => parent.len() == root.len() + depth
            && node.path.len() == parent.len() + 1,
        StepView::Measure { path, depth, .. } => path.len() == root.len() + depth + 1,
        StepView::Report { path, depth, .. } => path.len() == root.len() + depth + 1,
        _ => true,
    }
}

/// Whether all tasks lie at their depth.
pub open spec fn all_at_their_depth(root: Seq<PartView>, tasks: Seq<StepView>) -> bool {
    forall|i: int| 0 <= i < tasks.len() ==> lies_at_its_depth(root, #[trigger] tasks[i])
}

/// Each task of a scan lies at its depth, whatever the answers and whatever is refused.
pub proof fn tasks_lie_at_their_depth(
    root: Seq<PartView>,
    max_depth: nat,
    scan: ScanView,
    names: Option<Seq<NameView>>,
    kind: Option<Meta>,
    taken: bool,
)
    ensures
        all_at_their_depth(root, ScanView::start(root, max_depth).tasks),
        scan.tasks.len() > 0 && all_at_their_depth(root, scan.tasks) ==> {
            &&& all_at_their_depth(root, scan.listed(names).tasks)
            &&& all_at_their_depth(root, scan.examined(kind).tasks)
            &&& all_at_their_depth(root, scan.sent(taken).tasks)
            &&& all_at_their_depth(root, scan.refreshed().tasks)
        },
{
    if scan.tasks.len() > 0 && all_at_their_depth(root, scan.tasks) {
        let rest = scan.tasks.drop_last();
        assert forall|i: int| 0 <= i < rest.len() implies lies_at_its_depth(
            root,
            #[trigger] rest[i],
        ) by {
            assert(rest[i] == scan.tasks[i]);
        }
        assert(lies_at_its_depth(root, scan.tasks[scan.tasks.len() - 1]));
        refusal_leaves_the_directory(scan);
        let left = scan.sent(false).tasks;
        assert forall|i: int| 0 <= i < left.len() implies lies_at_its_depth(
            root,
            #[trigger] left[i],
        ) by {
            assert(left[i] == scan.tasks[i]);
        }
        if let StepView::Entries { dir, left, depth } = scan.tasks.last() {
            let path = child_of(dir, left.first().id);
            assert(path.len() == dir.len() + 1);
        }
    }
}

/// What a directory that is found gives rise to, the last first: it is sent, the window is drawn,
/// its size is found out, the window is drawn, it is opened unless it lies too deep, and the window
/// is drawn. All of it but the opening belongs to the directory that it lies in.
pub proof fn found_directory(scan: ScanView, base: Seq<StepView>)
    requires
        scan.tasks.len() > 0,
        scan.tasks[scan.tasks.len() - 1] matches StepView::Entries { dir, left, depth } && {
            &&& left.len() > 0
            &&& base == scan.tasks.take(scan.tasks.len() - 1) + (if left.len() > 1 {
                seq![StepView::Entries { dir, left: left.skip(1), depth }]
            } else {
                Seq::empty()
            })
        },
    ensures
        scan.tasks[scan.tasks.len() - 1] matches StepView::Entries { dir, left, depth } && {
            let next = scan.examined(Some(Meta::Dir)).tasks;
            let n = base.len() as int;
            let path = dir.push(PartView::Name(left[0].id));
            &&& next.take(n) == base
            &&& next[n] == (StepView::Refresh { depth })
            &&& depth + 1 < scan.max_depth ==> next.len() == n + 6 && next[n + 1]
                == (StepView::Open { path, depth: depth + 1 })
            &&& depth + 1 >= scan.max_depth ==> next.len() == n + 5
            &&& next[next.len() - 4] == (StepView::Refresh { depth })
            &&& next[next.len() - 3] matches StepView::Measure { path: p, depth: d, walk }
            &&& p == path && d == depth && walk.total == 0
            &&& next[next.len() - 2] == (StepView::Refresh { depth })
            &&& next[next.len() - 1] matches StepView::Offer { parent, node, depth: e }
            &&& parent == dir && e == depth
            &&& node == (NodeView { name: left[0].text, path, size: 0, is_dir: true })
        },
{
    if let StepView::Entries { dir, left, depth } = scan.tasks.last() {
        let rest = scan.tasks.drop_last();
        assert(rest =~= scan.tasks.take(scan.tasks.len() - 1));
        assert(left.drop_first() =~= left.skip(1));
        let after = crate::scan::with_entries(rest, dir, left.drop_first(), depth);
        assert(after =~= base);
        let next = scan.examined(Some(Meta::Dir)).tasks;
        assert(next.take(base.len() as int) =~= base);
    }
}

/// An entry can be taken in as long as the size that is being added up fits in 64 bits with it.
pub proof fn room_is_for_64_bits(scan: ScanView, kind: Option<Meta>)
    ensures
        scan.has_room(kind) <==> !(scan.tasks.len() > 0 && (scan.tasks[scan.tasks.len()
            - 1] matches StepView::Measure { walk, .. } && (kind matches Some(Meta::File(len))
            && walk.total + len > u64::MAX))),
{
}

} // verus!
