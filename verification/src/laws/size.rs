//! Which bytes make up the size of a directory.
use vstd::prelude::*;

use crate::listing::{Meta, NameView, Snapshot};
use crate::path::{child_of, PartView};
use crate::replay::{distinct_names, names_are_distinct};
use crate::totals::file_adds_its_length;
use crate::walk::{walk_adds_up, TaskView, WalkView};

verus! {

/// Whether the component at position `k` of `path` is listed in the directory above it, and is that
/// of a directory.
pub open spec fn goes_down(world: Snapshot, path: Seq<PartView>, k: int) -> bool {
    &&& world.listings.dom().contains(path.take(k))
    &&& exists|i: int|
        0 <= i < world.listings[path.take(k)].len() && path[k] == PartView::Name(
            (#[trigger] world.listings[path.take(k)][i]).id,
        )
    &&& world.kinds.dom().contains(path.take(k + 1))
    &&& world.kinds[path.take(k + 1)] == Meta::Dir
}

/// Whether the directory `home` can be reached from `dir`: it is `dir` or lies below it, each
/// directory on the way is listed in the one above it, and each can be read.
pub open spec fn reached(world: Snapshot, dir: Seq<PartView>, home: Seq<PartView>) -> bool {
    &&& dir.len() <= home.len()
    &&& home.take(dir.len() as int) == dir
    &&& world.listings.dom().contains(home)
    &&& forall|k: int| dir.len() <= k < home.len() ==> #[trigger] goes_down(world, home, k)
}

/// Whether `home` is reached through one of the entries of `dir` that are called `names`.
pub open spec fn reached_through(
    world: Snapshot,
    dir: Seq<PartView>,
    names: Seq<NameView>,
    home: Seq<PartView>,
) -> bool {
    exists|i: int|
        0 <= i < names.len() && world.kind(child_of(dir, (#[trigger] names[i]).id)) == Some(
            Meta::Dir,
        ) && reached(world, child_of(dir, names[i].id), home)
}

/// What lies below a directory is reached through one of its entries.
pub proof fn reached_step_by_step(world: Snapshot, dir: Seq<PartView>, home: Seq<PartView>)
    requires
        world.listings.dom().contains(dir),
    ensures
        reached(world, dir, home) <==> dir == home || reached_through(
            world,
            dir,
            world.listings[dir],
            home,
        ),
        dir == home ==> !reached_through(world, dir, world.listings[dir], home),
{
    let names = world.listings[dir];
    let n = dir.len() as int;
    if reached(world, dir, home) && dir != home {
        if home.len() == n {
            assert(home.take(n) =~= home);
        }
        assert(goes_down(world, home, n));
        let i = choose|i: int|
            0 <= i < world.listings[home.take(n)].len() && home[n] == PartView::Name(
                (#[trigger] world.listings[home.take(n)][i]).id,
            );
        let child = child_of(dir, names[i].id);
        assert(home.take(n + 1) =~= child);
        assert(reached(world, child, home));
        assert(world.kind(child) == Some(Meta::Dir));
    }
    if reached_through(world, dir, names, home) {
        let i = choose|i: int|
            0 <= i < names.len() && world.kind(child_of(dir, (#[trigger] names[i]).id)) == Some(
                Meta::Dir,
            ) && reached(world, child_of(dir, names[i].id), home);
        let child = child_of(dir, names[i].id);
        assert(home.take(n + 1) == child);
        assert(home.take(n) =~= child.take(n));
        assert(child.take(n) =~= dir);
        assert(home[n] == home.take(n + 1)[n]);
        assert(goes_down(world, home, n));
        assert forall|k: int| n <= k < home.len() implies #[trigger] goes_down(world, home, k) by {}
        assert(reached(world, dir, home));
    }
    if dir == home {
        assert(home.take(n) =~= dir);
    }
}

proof fn times_is_reach(world: Snapshot, dir: Seq<PartView>, home: Seq<PartView>, h: nat)
    requires
        names_are_distinct(world),
        world.fits(dir, h),
    ensures
        reached(world, dir, home) ==> world.times(dir, home, h) == 1,
        !reached(world, dir, home) ==> world.times(dir, home, h) == 0,
    decreases h, 1nat, 0nat,
{
    if world.listings.dom().contains(dir) {
        let names = world.listings[dir];
        names_reach(world, dir, names, home, h);
        reached_step_by_step(world, dir, home);
    } else {
        if reached(world, dir, home) {
            if home.len() > dir.len() {
                assert(goes_down(world, home, dir.len() as int));
            } else {
                assert(home.take(dir.len() as int) =~= home);
            }
        }
    }
}

proof fn names_reach(
    world: Snapshot,
    dir: Seq<PartView>,
    names: Seq<NameView>,
    home: Seq<PartView>,
    h: nat,
)
    requires
        names_are_distinct(world),
        distinct_names(names),
        forall|i: int|
            0 <= i < names.len() && world.kind(child_of(dir, (#[trigger] names[i]).id)) == Some(
                Meta::Dir,
            ) ==> h > 0 && world.fits(child_of(dir, names[i].id), (h - 1) as nat),
    ensures
        reached_through(world, dir, names, home) ==> world.times_of(dir, names, home, h) == 1,
        !reached_through(world, dir, names, home) ==> world.times_of(dir, names, home, h) == 0,
    decreases h, 0nat, names.len(),
{
    if names.len() > 0 {
        let rest = names.drop_first();
        let child = child_of(dir, names.first().id);
        assert(names[0] == names.first());
        assert forall|i: int| 0 <= i < rest.len() implies #[trigger] rest[i] == names[i + 1] by {}
        assert forall|i: int, j: int| 0 <= i < j < rest.len() implies (#[trigger] rest[i]).id != (
        #[trigger] rest[j]).id by {
            assert(names[i + 1].id != names[j + 1].id);
        }
        names_reach(world, dir, rest, home, h);
        let first = world.kind(child) == Some(Meta::Dir) && reached(world, child, home);
        if world.kind(child) == Some(Meta::Dir) {
            times_is_reach(world, child, home, (h - 1) as nat);
        }
        if reached_through(world, dir, rest, home) {
            let i = choose|i: int|
                0 <= i < rest.len() && world.kind(child_of(dir, (#[trigger] rest[i]).id)) == Some(
                    Meta::Dir,
                ) && reached(world, child_of(dir, rest[i].id), home);
            let other = child_of(dir, rest[i].id);
            assert(rest[i] == names[i + 1]);
            assert(names[0].id != names[i + 1].id);
            if first {
                assert(child.len() == other.len());
                assert(child == other);
                assert(child.last() == other.last());
            }
            assert(reached_through(world, dir, names, home));
        }
        if first {
            assert(reached_through(world, dir, names, home));
        }
        if reached_through(world, dir, names, home) {
            let i = choose|i: int|
                0 <= i < names.len() && world.kind(child_of(dir, (#[trigger] names[i]).id)) == Some(
                    Meta::Dir,
                ) && reached(world, child_of(dir, names[i].id), home);
            if i > 0 {
                assert(rest[i - 1] == names[i]);
            }
        }
    }
}

/// One more file in a directory that can be reached adds its length to what the walk adds up,
/// however deep it lies and whatever it is called; one in any other directory adds nothing.
pub proof fn file_counts_where_reached(
    world: Snapshot,
    dir: Seq<PartView>,
    h: nat,
    home: Seq<PartView>,
    at: int,
    name: NameView,
    len: u64,
) -> (n: nat)
    requires
        names_are_distinct(world),
        world.fits(dir, h),
        world.can_add(home, at, name),
    ensures
        reached(world, dir, home) ==> world.with_file(home, at, name, len).bytes(dir, h)
            == world.bytes(dir, h) + len,
        !reached(world, dir, home) ==> world.with_file(home, at, name, len).bytes(dir, h)
            == world.bytes(dir, h),
        WalkView::start(dir).run(world.with_file(home, at, name, len), n).todo.len() == 0,
        WalkView::start(dir).run(world.with_file(home, at, name, len), n).total
            == world.with_file(home, at, name, len).bytes(dir, h),
{
    times_is_reach(world, dir, home, h);
    assert(0 * len == 0);
    assert(1 * len == len);
    file_adds_its_length(world, dir, h, home, at, name, len)
}

/// Where there are no files, the walk adds up nothing.
pub proof fn no_files_no_bytes(world: Snapshot, dir: Seq<PartView>, h: nat) -> (n: nat)
    requires
        world.fits(dir, h),
        forall|p: Seq<PartView>| #[trigger]
            world.kinds.dom().contains(p) ==> (world.kinds[p] matches Meta::File(len) ==> len == 0),
    ensures
        world.bytes(dir, h) == 0,
        WalkView::start(dir).run(world, n) == (WalkView {
            todo: Seq::<TaskView>::empty(),
            total: 0,
        }),
{
    no_bytes(world, dir, h);
    walk_adds_up(world, dir, h)
}

proof fn no_bytes(world: Snapshot, dir: Seq<PartView>, h: nat)
    requires
        forall|p: Seq<PartView>| #[trigger]
            world.kinds.dom().contains(p) ==> (world.kinds[p] matches Meta::File(len) ==> len == 0),
    ensures
        world.bytes(dir, h) == 0,
    decreases h, 1nat, 0nat,
{
    if let Some(names) = world.names(dir) {
        no_bytes_of(world, dir, names, h);
    }
}

proof fn no_bytes_of(world: Snapshot, dir: Seq<PartView>, names: Seq<NameView>, h: nat)
    requires
        forall|p: Seq<PartView>| #[trigger]
            world.kinds.dom().contains(p) ==> (world.kinds[p] matches Meta::File(len) ==> len == 0),
    ensures
        world.bytes_of(dir, names, h) == 0,
    decreases h, 0nat, names.len(),
{
    if names.len() > 0 {
        let path = child_of(dir, names.first().id);
        no_bytes_of(world, dir, names.drop_first(), h);
        if h > 0 {
            no_bytes(world, path, (h - 1) as nat);
        }
        assert(world.bytes_at(path, h) == 0);
    }
}

/// One answer more: a file adds its length and nothing else does; a directory that is found is to be
/// read next.
pub proof fn walk_takes_answers(walk: WalkView, names: Option<Seq<NameView>>, kind: Option<Meta>)
    requires
        walk.todo.len() > 0,
    ensures
        walk.listed(names).total == walk.total,
        walk.todo[walk.todo.len() - 1] is Entries ==> match kind {
            Some(Meta::File(len)) => walk.examined(kind).total == walk.total + len,
            _ => walk.examined(kind).total == walk.total,
        },
        walk.todo[walk.todo.len() - 1] matches TaskView::Entries(dir, left) ==> (left.len() > 0
            && kind == Some(Meta::Dir) ==> {
            let todo = walk.examined(kind).todo;
            todo.len() > 0 && todo[todo.len() - 1] == TaskView::List(
                dir.push(PartView::Name(left[0].id)),
            )
        }),
{
}

/// Whether `path` is that of a directory below `dir`, or `dir` itself: each component on the way is
/// listed in the directory above it, and is that of a directory.
pub open spec fn is_below(world: Snapshot, dir: Seq<PartView>, path: Seq<PartView>) -> bool {
    &&& dir.len() <= path.len()
    &&& path.take(dir.len() as int) == dir
    &&& forall|k: int| dir.len() <= k < path.len() ==> #[trigger] goes_down(world, path, k)
}

/// A tree fits if no directory in it lies deeper than `h` levels.
pub proof fn shallow_tree_fits(world: Snapshot, dir: Seq<PartView>, h: nat)
    requires
        forall|path: Seq<PartView>| #[trigger]
            is_below(world, dir, path) ==> path.len() <= dir.len() + h,
    ensures
        world.fits(dir, h),
    decreases h,
{
    if world.listings.dom().contains(dir) {
        let names = world.listings[dir];
        let n = dir.len() as int;
        assert forall|i: int|
            0 <= i < names.len() && world.kind(child_of(dir, (#[trigger] names[i]).id)) == Some(
                Meta::Dir,
            ) implies h > 0 && world.fits(child_of(dir, names[i].id), (h - 1) as nat) by {
            let child = child_of(dir, names[i].id);
            assert forall|path: Seq<PartView>| #[trigger] is_below(world, child, path) implies {
                &&& is_below(world, dir, path)
                &&& path.len() <= child.len() + (h - 1)
            } by {
                assert(path.take(n) =~= path.take(n + 1).take(n));
                assert(child.take(n) =~= dir);
                assert(path[n] == path.take(n + 1)[n]);
                assert(world.listings[path.take(n)][i] == names[i]);
                assert(goes_down(world, path, n));
                assert(is_below(world, dir, path));
            }
            assert(child.take(n + 1) =~= child);
            assert(is_below(world, child, child));
            shallow_tree_fits(world, child, (h - 1) as nat);
        }
    }
}

} // verus!
