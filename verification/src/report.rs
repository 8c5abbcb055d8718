//! What a scan sends, from its first message to its last.
use vstd::prelude::*;

use crate::listing::{Meta, NameView, Snapshot};
use crate::path::{child_of, PartView};
use crate::scan::{
    node_of, with_directory, with_entries, with_file, with_walk, ActionView, ScanView, StepView,
};
use crate::tree::MsgView;
use crate::walk::{over_stays, walk_adds_up, WalkView};

verus! {

/// Something that a scan does that can be seen from outside.
pub enum Output {
    /// It sends a message.
    Send(MsgView),
    /// It has the window drawn again.
    Refresh,
}

/// What a scan puts out for the directory `dir`, which lies `depth` levels below the root.
pub open spec fn dir_outputs(
    world: Snapshot,
    dir: Seq<PartView>,
    depth: nat,
    max_depth: nat,
    h: nat,
) -> Seq<Output>
    decreases max_depth - depth, 1nat, 0nat,
{
    if depth >= max_depth {
        Seq::empty()
    } else {
        match world.names(dir) {
            Some(names) => seq![Output::Send(MsgView::DirCount)] + names_outputs(
                world,
                dir,
                names,
                depth,
                max_depth,
                h,
            ),
            None => Seq::empty(),
        }
    }
}

/// What a scan puts out for those entries of `dir` that are called `names`.
pub open spec fn names_outputs(
    world: Snapshot,
    dir: Seq<PartView>,
    names: Seq<NameView>,
    depth: nat,
    max_depth: nat,
    h: nat,
) -> Seq<Output>
    decreases max_depth - depth, 0nat, names.len(),
    when depth < max_depth
{
    if names.len() == 0 {
        Seq::empty()
    } else {
        entry_outputs(world, dir, names.first(), depth, max_depth, h) + names_outputs(
            world,
            dir,
            names.drop_first(),
            depth,
            max_depth,
            h,
        )
    }
}

/// What a scan puts out for one entry of `dir`: nothing for an empty file or one of which nothing
/// can be told; the entry of any other file; of a directory the entry, with size 0, right after it
/// the size, and then what lies in the directory.
pub open spec fn entry_outputs(
    world: Snapshot,
    dir: Seq<PartView>,
    name: NameView,
    depth: nat,
    max_depth: nat,
    h: nat,
) -> Seq<Output>
    decreases max_depth - depth, 0nat, 0nat,
    when depth < max_depth
{
    let path = child_of(dir, name.id);
    match world.kind(path) {
        Some(Meta::Dir) => directory_head(world, dir, name, h) + dir_outputs(
            world,
            path,
            depth + 1,
            max_depth,
            (h - 1) as nat,
        ) + seq![Output::Refresh],
        Some(Meta::File(len)) => if len == 0 {
            Seq::empty()
        } else {
            seq![
                Output::Send(
                    MsgView::Entry { parent: dir, node: node_of(dir, name, len as nat, false) },
                ),
                Output::Refresh,
            ]
        },
        None => Seq::empty(),
    }
}

/// What a scan puts out for a directory before it opens it.
pub open spec fn directory_head(
    world: Snapshot,
    dir: Seq<PartView>,
    name: NameView,
    h: nat,
) -> Seq<Output> {
    let path = child_of(dir, name.id);
    seq![
        Output::Send(MsgView::Entry { parent: dir, node: node_of(dir, name, 0, true) }),
        Output::Refresh,
        Output::Send(MsgView::SizeReady { path, size: world.bytes(path, (h - 1) as nat) }),
        Output::Refresh,
    ]
}

/// All that a scan of `root` puts out.
pub open spec fn scan_outputs(
    world: Snapshot,
    root: Seq<PartView>,
    max_depth: nat,
    h: nat,
) -> Seq<Output> {
    dir_outputs(world, root, 0, max_depth, h) + seq![Output::Send(MsgView::Done), Output::Refresh]
}

impl ScanView {
    /// What the next action puts out.
    pub open spec fn output(self) -> Seq<Output> {
        match self.action() {
            ActionView::Send(msg) => seq![Output::Send(msg)],
            ActionView::Refresh => seq![Output::Refresh],
            _ => Seq::empty(),
        }
    }

    /// The scan after one action, all questions answered by `world` and all messages taken.
    pub open spec fn step(self, world: Snapshot) -> ScanView {
        match self.action() {
            ActionView::ReadDir(path) => self.listed(world.names(path)),
            ActionView::Stat(path) => self.examined(world.kind(path)),
            ActionView::Send(_) => self.sent(true),
            ActionView::Refresh => self.refreshed(),
            ActionView::Finished => self,
        }
    }

    /// The scan after `n` actions.
    pub open spec fn run(self, world: Snapshot, n: nat) -> ScanView
        decreases n,
    {
        if n == 0 {
            self
        } else {
            self.step(world).run(world, (n - 1) as nat)
        }
    }

    /// What `n` actions put out.
    pub open spec fn outputs(self, world: Snapshot, n: nat) -> Seq<Output>
        decreases n,
    {
        if n == 0 {
            Seq::empty()
        } else {
            self.output() + self.step(world).outputs(world, (n - 1) as nat)
        }
    }
}

/// Whether `n` actions take the scan to the given tasks and put out what is given.
pub open spec fn leads_to(
    world: Snapshot,
    scan: ScanView,
    n: nat,
    tasks: Seq<StepView>,
    out: Seq<Output>,
) -> bool {
    scan.run(world, n) == scan.with_tasks(tasks) && scan.outputs(world, n) == out
}

/// A run goes on where it was left.
proof fn run_continues(world: Snapshot, scan: ScanView, a: nat, b: nat)
    ensures
        scan.run(world, a).run(world, b) == scan.run(world, a + b),
        scan.outputs(world, a) + scan.run(world, a).outputs(world, b) == scan.outputs(world, a + b),
    decreases a,
{
    if a > 0 {
        run_continues(world, scan.step(world), (a - 1) as nat, b);
        let rest = scan.step(world).outputs(world, (a - 1) as nat);
        let more = scan.run(world, a).outputs(world, b);
        assert(scan.output() + rest + more =~= scan.output() + (rest + more));
    } else {
        assert(scan.outputs(world, 0) + scan.outputs(world, b) =~= scan.outputs(world, b));
    }
}

/// One run after another.
proof fn joined(
    world: Snapshot,
    scan: ScanView,
    a: nat,
    mid: Seq<StepView>,
    first: Seq<Output>,
    b: nat,
    end: Seq<StepView>,
    second: Seq<Output>,
)
    requires
        leads_to(world, scan, a, mid, first),
        leads_to(world, scan.with_tasks(mid), b, end, second),
    ensures
        leads_to(world, scan, a + b, end, first + second),
{
    run_continues(world, scan, a, b);
}

/// A single action.
proof fn single(world: Snapshot, scan: ScanView, tasks: Seq<StepView>, out: Seq<Output>)
    requires
        scan.step(world) == scan.with_tasks(tasks),
        scan.output() == out,
    ensures
        leads_to(world, scan, 1, tasks, out),
{
    assert(scan.step(world).outputs(world, 0) =~= Seq::empty());
    assert(scan.outputs(world, 1) == scan.output() + scan.step(world).outputs(world, 0));
    assert(scan.outputs(world, 1) =~= out);
    assert(scan.step(world).run(world, 0) == scan.step(world));
    assert(scan.run(world, 1) == scan.step(world).run(world, 0));
}

/// A walk ends in the report of its total, without any output.
proof fn measure_ends(
    world: Snapshot,
    scan: ScanView,
    rest: Seq<StepView>,
    path: Seq<PartView>,
    walk: WalkView,
    depth: nat,
    n: nat,
) -> (m: nat)
    requires
        scan.tasks == rest.push(StepView::Measure { path, walk, depth }),
        walk.todo.len() > 0,
        walk.run(world, n).todo.len() == 0,
    ensures
        leads_to(
            world,
            scan,
            m,
            rest.push(StepView::Report { path, size: walk.run(world, n).total, depth }),
            Seq::empty(),
        ),
    decreases n,
{
    let next = walk.step(world);
    assert(scan.tasks.drop_last() =~= rest);
    let after = with_walk(rest, path, next, depth);
    single(world, scan, after, Seq::empty());
    if next.todo.len() == 0 {
        over_stays(world, next, (n - 1) as nat);
        1
    } else {
        let m = measure_ends(
            world,
            scan.with_tasks(after),
            rest,
            path,
            next,
            depth,
            (n - 1) as nat,
        );
        let end = rest.push(StepView::Report { path, size: walk.run(world, n).total, depth });
        joined(world, scan, 1, after, Seq::empty(), m, end, Seq::empty());
        assert(Seq::<Output>::empty() + Seq::<Output>::empty() =~= Seq::<Output>::empty());
        m + 1
    }
}

/// What the tasks of a directory that was found put out, up to the point at which it is opened.
proof fn head_reports(
    world: Snapshot,
    scan: ScanView,
    rest: Seq<StepView>,
    dir: Seq<PartView>,
    name: NameView,
    depth: nat,
    h: nat,
) -> (n: nat)
    requires
        h > 0,
        world.fits(child_of(dir, name.id), (h - 1) as nat),
        scan.tasks == rest.push(StepView::Refresh { depth }).push(
            StepView::Measure {
                path: child_of(dir, name.id),
                walk: WalkView::start(child_of(dir, name.id)),
                depth,
            },
        ).push(StepView::Refresh { depth }).push(
            StepView::Offer { parent: dir, node: node_of(dir, name, 0, true), depth },
        ),
    ensures
        leads_to(world, scan, n, rest, directory_head(world, dir, name, h)),
{
    let path = child_of(dir, name.id);
    let size = world.bytes(path, (h - 1) as nat);
    let walk = WalkView::start(path);
    let t1 = rest.push(StepView::Refresh { depth });
    let t2 = t1.push(StepView::Measure { path, walk, depth });
    let t3 = t2.push(StepView::Refresh { depth });
    let t4 = t1.push(StepView::Report { path, size, depth });
    let entry = Output::Send(MsgView::Entry { parent: dir, node: node_of(dir, name, 0, true) });
    let ready = Output::Send(MsgView::SizeReady { path, size });
    assert(scan.tasks.drop_last() =~= t3);
    single(world, scan, t3, seq![entry]);
    assert(t3.drop_last() =~= t2);
    single(world, scan.with_tasks(t3), t2, seq![Output::Refresh]);
    joined(world, scan, 1, t3, seq![entry], 1, t2, seq![Output::Refresh]);
    let out2 = seq![entry] + seq![Output::Refresh];
    let k = walk_adds_up(world, path, (h - 1) as nat);
    let m = measure_ends(world, scan.with_tasks(t2), t1, path, walk, depth, k);
    joined(world, scan, 2, t2, out2, m, t4, Seq::empty());
    let out3 = out2 + Seq::empty();
    assert(t4.drop_last() =~= t1);
    single(world, scan.with_tasks(t4), t1, seq![ready]);
    joined(world, scan, 2 + m, t4, out3, 1, t1, seq![ready]);
    let out4 = out3 + seq![ready];
    assert(t1.drop_last() =~= rest);
    single(world, scan.with_tasks(t1), rest, seq![Output::Refresh]);
    joined(world, scan, 3 + m, t1, out4, 1, rest, seq![Output::Refresh]);
    assert(out4 + seq![Output::Refresh] =~= directory_head(world, dir, name, h));
    4 + m
}

/// What opening a directory puts out.
proof fn open_reports(
    world: Snapshot,
    scan: ScanView,
    rest: Seq<StepView>,
    dir: Seq<PartView>,
    depth: nat,
    h: nat,
) -> (n: nat)
    requires
        scan.tasks == rest.push(StepView::Open { path: dir, depth }),
        depth < scan.max_depth,
        world.fits(dir, h),
    ensures
        leads_to(world, scan, n, rest, dir_outputs(world, dir, depth, scan.max_depth, h)),
    decreases scan.max_depth - depth, 1nat, 0nat,
{
    assert(scan.tasks.drop_last() =~= rest);
    match world.names(dir) {
        None => {
            single(world, scan, rest, Seq::empty());
            1
        },
        Some(names) => {
            let t1 = with_entries(rest, dir, names, depth);
            let t2 = t1.push(StepView::Announce { depth });
            single(world, scan, t2, Seq::empty());
            assert(t2.drop_last() =~= t1);
            let count = seq![Output::Send(MsgView::DirCount)];
            single(world, scan.with_tasks(t2), t1, count);
            joined(world, scan, 1, t2, Seq::empty(), 1, t1, count);
            let b = entries_report(world, scan.with_tasks(t1), rest, dir, names, depth, h);
            let out = names_outputs(world, dir, names, depth, scan.max_depth, h);
            joined(world, scan, 2, t1, Seq::empty() + count, b, rest, out);
            assert(Seq::empty() + count + out =~= count + out);
            2 + b
        },
    }
}

/// What looking at the entries of a directory that are left puts out.
proof fn entries_report(
    world: Snapshot,
    scan: ScanView,
    rest: Seq<StepView>,
    dir: Seq<PartView>,
    left: Seq<NameView>,
    depth: nat,
    h: nat,
) -> (n: nat)
    requires
        scan.tasks == with_entries(rest, dir, left, depth),
        depth < scan.max_depth,
        forall|i: int|
            0 <= i < left.len() && world.kind(child_of(dir, (#[trigger] left[i]).id)) == Some(
                Meta::Dir,
            ) ==> h > 0 && world.fits(child_of(dir, left[i].id), (h - 1) as nat),
    ensures
        leads_to(
            world,
            scan,
            n,
            rest,
            names_outputs(world, dir, left, depth, scan.max_depth, h),
        ),
    decreases scan.max_depth - depth, 0nat, left.len(),
{
    let max_depth = scan.max_depth;
    if left.len() == 0 {
        assert(scan.outputs(world, 0) =~= Seq::empty());
        assert(scan.run(world, 0) == scan);
        0
    } else {
        let name = left.first();
        let path = child_of(dir, name.id);
        let after = with_entries(rest, dir, left.drop_first(), depth);
        assert(scan.tasks.drop_last() =~= rest);
        assert(left[0] == name);
        let out = entry_outputs(world, dir, name, depth, max_depth, h);
        let a: nat = match world.kind(path) {
            None => {
                single(world, scan, after, Seq::empty());
                1
            },
            Some(Meta::File(len)) => {
                let t1 = with_file(after, dir, name, len as nat, depth);
                single(world, scan, t1, Seq::empty());
                if len == 0 {
                    1
                } else {
                    let t2 = after.push(StepView::Refresh { depth });
                    assert(t1.drop_last() =~= t2);
                    let node = node_of(dir, name, len as nat, false);
                    let entry = seq![Output::Send(MsgView::Entry { parent: dir, node })];
                    single(world, scan.with_tasks(t1), t2, entry);
                    joined(world, scan, 1, t1, Seq::empty(), 1, t2, entry);
                    assert(t2.drop_last() =~= after);
                    single(world, scan.with_tasks(t2), after, seq![Output::Refresh]);
                    joined(
                        world,
                        scan,
                        2,
                        t2,
                        Seq::empty() + entry,
                        1,
                        after,
                        seq![Output::Refresh],
                    );
                    assert(Seq::empty() + entry + seq![Output::Refresh] =~= out);
                    3
                }
            },
            Some(Meta::Dir) => {
                let t1 = with_directory(after, dir, name, depth, max_depth);
                single(world, scan, t1, Seq::empty());
                let below = after.push(StepView::Refresh { depth });
                let opened = if depth + 1 < max_depth {
                    below.push(StepView::Open { path, depth: depth + 1 })
                } else {
                    below
                };
                let b = head_reports(world, scan.with_tasks(t1), opened, dir, name, depth, h);
                let head = directory_head(world, dir, name, h);
                joined(world, scan, 1, t1, Seq::empty(), b, opened, head);
                let inner = dir_outputs(world, path, depth + 1, max_depth, (h - 1) as nat);
                let c: nat = if depth + 1 < max_depth {
                    open_reports(
                        world,
                        scan.with_tasks(opened),
                        below,
                        path,
                        depth + 1,
                        (h - 1) as nat,
                    )
                } else {
                    assert(scan.with_tasks(opened).outputs(world, 0) =~= Seq::empty());
                    assert(scan.with_tasks(opened).run(world, 0) == scan.with_tasks(opened));
                    0
                };
                joined(world, scan, 1 + b, opened, Seq::empty() + head, c, below, inner);
                assert(below.drop_last() =~= after);
                single(world, scan.with_tasks(below), after, seq![Output::Refresh]);
                joined(
                    world,
                    scan,
                    1 + b + c,
                    below,
                    Seq::empty() + head + inner,
                    1,
                    after,
                    seq![Output::Refresh],
                );
                assert(Seq::empty() + head + inner + seq![Output::Refresh] =~= out);
                2 + b + c
            },
        };
        assert(leads_to(world, scan, a, after, out));
        assert forall|i: int|
            0 <= i < left.drop_first().len() && world.kind(
                child_of(dir, (#[trigger] left.drop_first()[i]).id),
            ) == Some(Meta::Dir) implies h > 0 && world.fits(
            child_of(dir, left.drop_first()[i].id),
            (h - 1) as nat,
        ) by {
            assert(left.drop_first()[i] == left[i + 1]);
        }
        let d = entries_report(
            world,
            scan.with_tasks(after),
            rest,
            dir,
            left.drop_first(),
            depth,
            h,
        );
        let more = names_outputs(world, dir, left.drop_first(), depth, max_depth, h);
        joined(world, scan, a, after, out, d, rest, more);
        a + d
    }
}

/// A scan whose messages are all taken comes to an end, and what it has put out then is, in this
/// order: for each directory from the root down, that it was opened and what it holds; at the end,
/// that the scan is over.
pub proof fn scan_reports(world: Snapshot, root: Seq<PartView>, max_depth: nat, h: nat) -> (n: nat)
    requires
        world.fits(root, h),
    ensures
        ScanView::start(root, max_depth).run(world, n).action() is Finished,
        ScanView::start(root, max_depth).run(world, n).tasks.len() == 0,
        ScanView::start(root, max_depth).outputs(world, n) == scan_outputs(
            world,
            root,
            max_depth,
            h,
        ),
{
    let scan = ScanView::start(root, max_depth);
    let end = seq![StepView::LastRefresh, StepView::Finish];
    let out = dir_outputs(world, root, 0, max_depth, h);
    let a: nat = if max_depth > 0 {
        open_reports(world, scan, end, root, 0, h)
    } else {
        assert(scan.outputs(world, 0) =~= Seq::empty());
        assert(scan.run(world, 0) == scan);
        0
    };
    assert(leads_to(world, scan, a, end, out));
    let t1 = seq![StepView::LastRefresh];
    let done = seq![Output::Send(MsgView::Done)];
    assert(end.drop_last() =~= t1);
    single(world, scan.with_tasks(end), t1, done);
    joined(world, scan, a, end, out, 1, t1, done);
    assert(t1.drop_last() =~= Seq::<StepView>::empty());
    single(world, scan.with_tasks(t1), Seq::empty(), seq![Output::Refresh]);
    joined(world, scan, a + 1, t1, out + done, 1, Seq::empty(), seq![Output::Refresh]);
    assert(out + done + seq![Output::Refresh] =~= scan_outputs(world, root, max_depth, h));
    a + 2
}

/// How deep the directories below `dir` may lie does not matter to its size, as long as all are
/// counted.
pub proof fn size_is_one(world: Snapshot, dir: Seq<PartView>, a: nat, b: nat)
    requires
        world.fits(dir, a),
        world.fits(dir, b),
    ensures
        world.bytes(dir, a) == world.bytes(dir, b),
    decreases a, 1nat, 0nat,
{
    if let Some(names) = world.names(dir) {
        sizes_are_one(world, dir, names, a, b);
    }
}

proof fn sizes_are_one(world: Snapshot, dir: Seq<PartView>, names: Seq<NameView>, a: nat, b: nat)
    requires
        forall|i: int|
            0 <= i < names.len() && world.kind(child_of(dir, (#[trigger] names[i]).id)) == Some(
                Meta::Dir,
            ) ==> a > 0 && b > 0 && world.fits(child_of(dir, names[i].id), (a - 1) as nat)
                && world.fits(child_of(dir, names[i].id), (b - 1) as nat),
    ensures
        world.bytes_of(dir, names, a) == world.bytes_of(dir, names, b),
    decreases a, 0nat, names.len(),
{
    if names.len() > 0 {
        let path = child_of(dir, names.first().id);
        let rest = names.drop_first();
        assert(names[0] == names.first());
        if world.kind(path) == Some(Meta::Dir) {
            size_is_one(world, path, (a - 1) as nat, (b - 1) as nat);
        }
        assert forall|i: int|
            0 <= i < rest.len() && world.kind(child_of(dir, (#[trigger] rest[i]).id)) == Some(
                Meta::Dir,
            ) implies a > 0 && b > 0 && world.fits(child_of(dir, rest[i].id), (a - 1) as nat)
            && world.fits(child_of(dir, rest[i].id), (b - 1) as nat) by {
            assert(rest[i] == names[i + 1]);
        }
        sizes_are_one(world, dir, rest, a, b);
        assert(world.bytes_at(path, a) == world.bytes_at(path, b));
    }
}

/// Whether `size` is the size of the directory `dir`.
pub open spec fn is_size_of(world: Snapshot, dir: Seq<PartView>, size: nat) -> bool {
    exists|h: nat| #[trigger] world.fits(dir, h) && size == world.bytes(dir, h)
}

/// Whether the output at position `i` is in its place, in a scan of `root` that goes `levels`
/// levels deep.
///
/// An entry lies below the root, not too deep, in the directory that it is sent with. It is one that
/// this directory lists: it has the whole text of the name there, and its path is that of the
/// directory with the name behind it. That of a file has the size of the file, which is not empty;
/// that of a directory has size 0, and the next message is its size. A size comes in no other place.
/// After each of these the window is drawn again. That the scan is over is not said yet.
pub open spec fn in_place(
    world: Snapshot,
    root: Seq<PartView>,
    levels: nat,
    out: Seq<Output>,
    i: int,
) -> bool {
    match out[i] {
        Output::Send(MsgView::Entry { parent, node }) => {
            &&& world.listings.dom().contains(parent)
            &&& exists|k: int|
                0 <= k < world.listings[parent].len() && (
                #[trigger] world.listings[parent][k]).text == node.name && node.path == parent.push(
                    PartView::Name(world.listings[parent][k].id),
                )
            &&& root.is_prefix_of(parent)
            &&& i + 1 < out.len()
            &&& out[i + 1] is Refresh
            &&& node.path.len() <= root.len() + levels
            &&& if node.is_dir {
                &&& world.kind(node.path) == Some(Meta::Dir)
                &&& node.size == 0
                &&& i + 2 < out.len()
                &&& out[i + 2] matches Output::Send(MsgView::SizeReady { path, size })
                &&& path == node.path
                &&& is_size_of(world, path, size)
            } else {
                &&& world.kind(node.path) matches Some(Meta::File(len))
                &&& node.size == len
                &&& len > 0
            }
        },
        Output::Send(MsgView::SizeReady { path, size }) => {
            &&& i >= 2
            &&& out[i - 1] is Refresh
            &&& out[i - 2] matches Output::Send(MsgView::Entry { parent, node })
            &&& node.is_dir
            &&& node.path == path
            &&& i + 1 < out.len()
            &&& out[i + 1] is Refresh
        },
        Output::Send(MsgView::Done) => false,
        _ => true,
    }
}

/// Whether all outputs are in their place.
pub open spec fn all_in_place(
    world: Snapshot,
    root: Seq<PartView>,
    levels: nat,
    out: Seq<Output>,
) -> bool {
    forall|i: int|
        #![trigger out[i]]
        0 <= i < out.len() ==> in_place(world, root, levels, out, i)
}

proof fn joined_in_place(
    world: Snapshot,
    root: Seq<PartView>,
    levels: nat,
    a: Seq<Output>,
    b: Seq<Output>,
)
    requires
        all_in_place(world, root, levels, a),
        all_in_place(world, root, levels, b),
    ensures
        all_in_place(world, root, levels, a + b),
{
    let out = a + b;
    assert forall|i: int| #![trigger out[i]] 0 <= i < out.len() implies in_place(
        world,
        root,
        levels,
        out,
        i,
    ) by {
        if i < a.len() {
            assert(out[i] == a[i]);
            assert(in_place(world, root, levels, a, i));
            assert(i + 1 < a.len() ==> out[i + 1] == a[i + 1]);
            assert(i + 2 < a.len() ==> out[i + 2] == a[i + 2]);
            assert(i >= 2 ==> out[i - 1] == a[i - 1] && out[i - 2] == a[i - 2]);
        } else {
            let k = i - a.len();
            assert(out[i] == b[k]);
            assert(in_place(world, root, levels, b, k));
            assert(k + 1 < b.len() ==> out[i + 1] == b[k + 1]);
            assert(k + 2 < b.len() ==> out[i + 2] == b[k + 2]);
            assert(k >= 2 ==> out[i - 1] == b[k - 1] && out[i - 2] == b[k - 2]);
        }
    }
}

/// What is in place in a scan of a directory is so in a scan of the directory that holds it.
proof fn in_place_above(
    world: Snapshot,
    dir: Seq<PartView>,
    name: Seq<u8>,
    levels: nat,
    out: Seq<Output>,
)
    requires
        all_in_place(world, child_of(dir, name), levels, out),
    ensures
        all_in_place(world, dir, levels + 1, out),
{
    let inner = child_of(dir, name);
    assert forall|i: int| #![trigger out[i]] 0 <= i < out.len() implies in_place(
        world,
        dir,
        levels + 1,
        out,
        i,
    ) by {
        assert(in_place(world, inner, levels, out, i));
        if let Output::Send(MsgView::Entry { parent, node }) = out[i] {
            assert(inner.is_prefix_of(parent));
            assert(parent.subrange(0, dir.len() as int) =~= inner.subrange(0, dir.len() as int));
            assert(inner.subrange(0, dir.len() as int) =~= dir);
        }
    }
}

/// Each message of a scan is in its place. In particular the size of a directory is the next
/// message after its entry, and an entry lies below the root, at most `max_depth` levels deep.
pub proof fn outputs_in_place(
    world: Snapshot,
    dir: Seq<PartView>,
    depth: nat,
    max_depth: nat,
    h: nat,
)
    requires
        depth <= max_depth,
        world.fits(dir, h),
    ensures
        all_in_place(
            world,
            dir,
            (max_depth - depth) as nat,
            dir_outputs(world, dir, depth, max_depth, h),
        ),
    decreases max_depth - depth, 1nat, 0nat,
{
    if depth < max_depth {
        if let Some(names) = world.names(dir) {
            names_in_place(world, dir, names, depth, max_depth, h);
            let count = seq![Output::Send(MsgView::DirCount)];
            let levels = (max_depth - depth) as nat;
            assert(all_in_place(world, dir, levels, count));
            joined_in_place(
                world,
                dir,
                levels,
                count,
                names_outputs(world, dir, names, depth, max_depth, h),
            );
        }
    }
}

proof fn names_in_place(
    world: Snapshot,
    dir: Seq<PartView>,
    names: Seq<NameView>,
    depth: nat,
    max_depth: nat,
    h: nat,
)
    requires
        depth < max_depth,
        world.listings.dom().contains(dir),
        forall|i: int|
            0 <= i < names.len() ==> world.listings[dir].contains(#[trigger] names[i]),
        forall|i: int|
            0 <= i < names.len() && world.kind(child_of(dir, (#[trigger] names[i]).id)) == Some(
                Meta::Dir,
            ) ==> h > 0 && world.fits(child_of(dir, names[i].id), (h - 1) as nat),
    ensures
        all_in_place(
            world,
            dir,
            (max_depth - depth) as nat,
            names_outputs(world, dir, names, depth, max_depth, h),
        ),
    decreases max_depth - depth, 0nat, names.len(),
{
    let levels = (max_depth - depth) as nat;
    if names.len() > 0 {
        let name = names.first();
        let rest = names.drop_first();
        let path = child_of(dir, name.id);
        assert(names[0] == name);
        assert(world.listings[dir].contains(name));
        let at = choose|k: int| 0 <= k < world.listings[dir].len() && world.listings[dir][k] == name;
        assert(world.listings[dir][at] == name);
        assert(dir.subrange(0, dir.len() as int) =~= dir);
        let out = entry_outputs(world, dir, name, depth, max_depth, h);
        match world.kind(path) {
            Some(Meta::Dir) => {
                let head = directory_head(world, dir, name, h);
                let inner = dir_outputs(world, path, depth + 1, max_depth, (h - 1) as nat);
                assert(is_size_of(world, path, world.bytes(path, (h - 1) as nat)));
                let node = node_of(dir, name, 0, true);
                assert(head.len() == 4);
                assert(head[0] == Output::Send(MsgView::Entry { parent: dir, node }));
                assert(head[1] is Refresh);
                assert(head[3] is Refresh);
                assert(head[2] == Output::Send(
                    MsgView::SizeReady { path, size: world.bytes(path, (h - 1) as nat) },
                ));
                assert(world.listings[dir][at].text == node.name && node.path == dir.push(
                    PartView::Name(world.listings[dir][at].id),
                ));
                assert(path.len() <= dir.len() + levels);
                assert(in_place(world, dir, levels, head, 0));
                assert(all_in_place(world, dir, levels, head));
                outputs_in_place(world, path, depth + 1, max_depth, (h - 1) as nat);
                in_place_above(world, dir, name.id, (levels - 1) as nat, inner);
                joined_in_place(world, dir, levels, head, inner);
                joined_in_place(world, dir, levels, head + inner, seq![Output::Refresh]);
            },
            Some(Meta::File(len)) => {
                if len > 0 {
                    let node = node_of(dir, name, len as nat, false);
                    assert(out.len() == 2);
                    assert(out[0] == Output::Send(MsgView::Entry { parent: dir, node }));
                    assert(out[1] is Refresh);
                    assert(world.listings[dir][at].text == node.name && node.path == dir.push(
                        PartView::Name(world.listings[dir][at].id),
                    ));
                    assert(path.len() <= dir.len() + levels);
                    assert(in_place(world, dir, levels, out, 0));
                }
                assert(all_in_place(world, dir, levels, out));
            },
            None => {
                assert(all_in_place(world, dir, levels, out));
            },
        }
        assert forall|i: int|
            0 <= i < rest.len() && world.kind(child_of(dir, (#[trigger] rest[i]).id)) == Some(
                Meta::Dir,
            ) implies h > 0 && world.fits(child_of(dir, rest[i].id), (h - 1) as nat) by {
            assert(rest[i] == names[i + 1]);
        }
        assert forall|i: int| 0 <= i < rest.len() implies world.listings[dir].contains(
            #[trigger] rest[i],
        ) by {
            assert(rest[i] == names[i + 1]);
        }
        names_in_place(world, dir, rest, depth, max_depth, h);
        joined_in_place(
            world,
            dir,
            levels,
            out,
            names_outputs(world, dir, rest, depth, max_depth, h),
        );
    }
}

} // verus!
