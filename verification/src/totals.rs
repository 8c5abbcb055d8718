//! How the size of a directory depends on what lies in it.
use vstd::prelude::*;

use crate::listing::{Meta, NameView, Snapshot};
use crate::path::{child_of, PartView};
use crate::walk::{walk_adds_up, TaskView, WalkView};

verus! {

impl Snapshot {
    /// The file system with one more file, of `len` bytes, in the directory `home`: it is listed at
    /// position `at`.
    pub open spec fn with_file(
        self,
        home: Seq<PartView>,
        at: int,
        name: NameView,
        len: u64,
    ) -> Snapshot {
        Snapshot {
            listings: self.listings.insert(home, self.listings[home].insert(at, name)),
            kinds: self.kinds.insert(child_of(home, name.id), Meta::File(len)),
        }
    }

    /// Whether such a file can be added: the directory can be read, and lists no such name.
    pub open spec fn can_add(self, home: Seq<PartView>, at: int, name: NameView) -> bool {
        &&& self.listings.dom().contains(home)
        &&& 0 <= at <= self.listings[home].len()
        &&& forall|i: int|
            0 <= i < self.listings[home].len() ==> (#[trigger] self.listings[home][i]).id != name.id
    }

    /// How often `home` is reached from `dir`: through the listings, down to `h` levels.
    pub open spec fn times(self, dir: Seq<PartView>, home: Seq<PartView>, h: nat) -> nat
        decreases h, 1nat, 0nat,
    {
        match self.names(dir) {
            Some(names) => (if dir == home {
                1nat
            } else {
                0nat
            }) + self.times_of(dir, names, home, h),
            None => 0,
        }
    }

    /// How often `home` is reached from those entries of `dir` that are called `names`.
    pub open spec fn times_of(
        self,
        dir: Seq<PartView>,
        names: Seq<NameView>,
        home: Seq<PartView>,
        h: nat,
    ) -> nat
        decreases h, 0nat, names.len(),
    {
        if names.len() == 0 {
            0
        } else {
            let path = child_of(dir, names.first().id);
            let first = if self.kind(path) == Some(Meta::Dir) && h > 0 {
                self.times(path, home, (h - 1) as nat)
            } else {
                0
            };
            first + self.times_of(dir, names.drop_first(), home, h)
        }
    }

    /// Whether `other` is this file system with the listings of its directories in another order.
    pub open spec fn is_reordered(self, other: Snapshot) -> bool {
        &&& other.kinds == self.kinds
        &&& other.listings.dom() == self.listings.dom()
        &&& forall|dir: Seq<PartView>| #[trigger]
            self.listings.dom().contains(dir) ==> other.listings[dir].to_multiset()
                == self.listings[dir].to_multiset()
    }
}

/// One name more adds the bytes of its entry, wherever it is listed.
proof fn name_adds(
    world: Snapshot,
    dir: Seq<PartView>,
    names: Seq<NameView>,
    at: int,
    name: NameView,
    h: nat,
)
    requires
        0 <= at <= names.len(),
    ensures
        world.bytes_of(dir, names.insert(at, name), h) == world.bytes_of(dir, names, h)
            + world.bytes_at(child_of(dir, name.id), h),
    decreases at,
{
    let longer = names.insert(at, name);
    if at == 0 {
        assert(longer.drop_first() =~= names);
    } else {
        assert(longer.drop_first() =~= names.drop_first().insert(at - 1, name));
        assert(longer.first() == names.first());
        name_adds(world, dir, names.drop_first(), at - 1, name, h);
    }
}

/// What the bytes of some entries gain by the file.
proof fn names_gain(
    world: Snapshot,
    dir: Seq<PartView>,
    names: Seq<NameView>,
    h: nat,
    home: Seq<PartView>,
    at: int,
    name: NameView,
    len: u64,
)
    requires
        world.can_add(home, at, name),
        forall|i: int| 0 <= i < names.len() ==> dir != home || (#[trigger] names[i]).id != name.id,
    ensures
        world.with_file(home, at, name, len).bytes_of(dir, names, h) == world.bytes_of(dir, names, h)
            + world.times_of(dir, names, home, h) * len,
    decreases h, 0nat, names.len(),
{
    let next = world.with_file(home, at, name, len);
    if names.len() > 0 {
        let first = names.first();
        let rest = names.drop_first();
        let path = child_of(dir, first.id);
        assert(names[0] == first);
        assert(path != child_of(home, name.id)) by {
            assert(path.drop_last() =~= dir);
            assert(child_of(home, name.id).drop_last() =~= home);
            assert(path.last() == PartView::Name(first.id));
            assert(child_of(home, name.id).last() == PartView::Name(name.id));
        }
        assert(next.kind(path) == world.kind(path));
        assert forall|i: int| 0 <= i < rest.len() implies dir != home || (#[trigger] rest[i]).id
            != name.id by {
            assert(rest[i] == names[i + 1]);
        }
        names_gain(world, dir, rest, h, home, at, name, len);
        let below = if world.kind(path) == Some(Meta::Dir) && h > 0 {
            bytes_gain(world, path, (h - 1) as nat, home, at, name, len);
            world.times(path, home, (h - 1) as nat)
        } else {
            0
        };
        let others = world.times_of(dir, rest, home, h);
        assert((below + others) * len == below * len + others * len) by (nonlinear_arith);
        assert(next.bytes_at(path, h) == world.bytes_at(path, h) + below * len) by {
            assert(0 * len == 0);
        }
        assert(world.times_of(dir, names, home, h) == below + others);
    } else {
        assert(0 * len == 0);
    }
}

/// What the bytes of a directory gain by the file.
proof fn bytes_gain(
    world: Snapshot,
    dir: Seq<PartView>,
    h: nat,
    home: Seq<PartView>,
    at: int,
    name: NameView,
    len: u64,
)
    requires
        world.can_add(home, at, name),
    ensures
        world.with_file(home, at, name, len).bytes(dir, h) == world.bytes(dir, h) + world.times(
            dir,
            home,
            h,
        ) * len,
    decreases h, 1nat, 0nat,
{
    let next = world.with_file(home, at, name, len);
    if world.listings.dom().contains(dir) {
        let names = world.listings[dir];
        names_gain(world, dir, names, h, home, at, name, len);
        if dir == home {
            name_adds(next, dir, names, at, name, h);
            let below = world.times_of(dir, names, home, h);
            assert((1 + below) * len == len + below * len) by (nonlinear_arith);
            assert(next.kind(child_of(dir, name.id)) == Some(Meta::File(len)));
            assert(next.names(dir) == Some(names.insert(at, name)));
        } else {
            assert(next.names(dir) == Some(names));
        }
    } else {
        assert(next.names(dir) is None);
        assert(0 * len == 0);
    }
}

/// A file adds no directory.
proof fn file_fits(
    world: Snapshot,
    dir: Seq<PartView>,
    h: nat,
    home: Seq<PartView>,
    at: int,
    name: NameView,
    len: u64,
)
    requires
        world.can_add(home, at, name),
        world.fits(dir, h),
    ensures
        world.with_file(home, at, name, len).fits(dir, h),
    decreases h,
{
    let next = world.with_file(home, at, name, len);
    if world.listings.dom().contains(dir) {
        let names = world.listings[dir];
        let longer = next.listings[dir];
        assert forall|i: int|
            0 <= i < longer.len() && next.kind(child_of(dir, (#[trigger] longer[i]).id)) == Some(
                Meta::Dir,
            ) implies h > 0 && next.fits(child_of(dir, longer[i].id), (h - 1) as nat) by {
            let path = child_of(dir, longer[i].id);
            assert(path != child_of(home, name.id));
            assert(world.kind(path) == Some(Meta::Dir));
            let k = if dir != home || i < at {
                i
            } else {
                i - 1
            };
            if dir == home && i == at {
                assert(longer[i] == name);
            }
            assert(names[k] == longer[i]);
            file_fits(world, path, (h - 1) as nat, home, at, name, len);
        }
    }
}

/// One more file adds its length to the size of each directory from which it is reached, once for
/// each time its directory is reached, however deep that lies.
pub proof fn file_adds_its_length(
    world: Snapshot,
    dir: Seq<PartView>,
    h: nat,
    home: Seq<PartView>,
    at: int,
    name: NameView,
    len: u64,
) -> (n: nat)
    requires
        world.can_add(home, at, name),
        world.fits(dir, h),
    ensures
        world.with_file(home, at, name, len).bytes(dir, h) == world.bytes(dir, h) + world.times(
            dir,
            home,
            h,
        ) * len,
        world.times(dir, home, h) == 1 ==> world.with_file(home, at, name, len).bytes(dir, h)
            == world.bytes(dir, h) + len,
        WalkView::start(dir).run(world.with_file(home, at, name, len), n) == (WalkView {
            todo: Seq::<TaskView>::empty(),
            total: world.bytes(dir, h) + world.times(dir, home, h) * (len as nat),
        }),
{
    bytes_gain(world, dir, h, home, at, name, len);
    file_fits(world, dir, h, home, at, name, len);
    walk_adds_up(world.with_file(home, at, name, len), dir, h)
}

/// The order of the names does not matter.
proof fn order_of_names(
    world: Snapshot,
    dir: Seq<PartView>,
    a: Seq<NameView>,
    b: Seq<NameView>,
    h: nat,
)
    requires
        a.to_multiset() == b.to_multiset(),
    ensures
        world.bytes_of(dir, a, h) == world.bytes_of(dir, b, h),
    decreases a.len(),
{
    broadcast use vstd::seq_lib::group_to_multiset_ensures;

    assert(a.len() == a.to_multiset().len());
    assert(b.len() == b.to_multiset().len());
    if a.len() > 0 {
        assert(a.contains(a[0]));
        assert(b.to_multiset().count(a[0]) > 0);
        assert(b.contains(a[0]));
        let k = choose|k: int| 0 <= k < b.len() && b[k] == a[0];
        assert(a.remove(0) =~= a.drop_first());
        order_of_names(world, dir, a.drop_first(), b.remove(k), h);
        name_adds(world, dir, b.remove(k), k, b[k], h);
        assert(b.remove(k).insert(k, b[k]) =~= b);
    }
}

/// The bytes of some entries are the same in both orders of the listings.
proof fn names_stay(
    world: Snapshot,
    other: Snapshot,
    dir: Seq<PartView>,
    names: Seq<NameView>,
    h: nat,
)
    requires
        world.is_reordered(other),
    ensures
        other.bytes_of(dir, names, h) == world.bytes_of(dir, names, h),
    decreases h, 0nat, names.len(),
{
    if names.len() > 0 {
        let path = child_of(dir, names.first().id);
        names_stay(world, other, dir, names.drop_first(), h);
        if h > 0 {
            bytes_stay(world, other, path, (h - 1) as nat);
        }
        assert(other.bytes_at(path, h) == world.bytes_at(path, h));
    }
}

/// The bytes of a directory are the same in both orders of the listings.
proof fn bytes_stay(world: Snapshot, other: Snapshot, dir: Seq<PartView>, h: nat)
    requires
        world.is_reordered(other),
    ensures
        other.bytes(dir, h) == world.bytes(dir, h),
    decreases h, 1nat, 0nat,
{
    if world.listings.dom().contains(dir) {
        names_stay(world, other, dir, other.listings[dir], h);
        order_of_names(world, dir, other.listings[dir], world.listings[dir], h);
    }
}

/// No directory lies deeper in another order.
proof fn reordered_fits(world: Snapshot, other: Snapshot, dir: Seq<PartView>, h: nat)
    requires
        world.is_reordered(other),
        world.fits(dir, h),
    ensures
        other.fits(dir, h),
    decreases h,
{
    broadcast use vstd::seq_lib::group_to_multiset_ensures;

    if world.listings.dom().contains(dir) {
        let a = world.listings[dir];
        let b = other.listings[dir];
        assert forall|i: int|
            0 <= i < b.len() && other.kind(child_of(dir, (#[trigger] b[i]).id)) == Some(
                Meta::Dir,
            ) implies h > 0 && other.fits(child_of(dir, b[i].id), (h - 1) as nat) by {
            assert(b.contains(b[i]));
            assert(a.to_multiset().count(b[i]) > 0);
            assert(a.contains(b[i]));
            let k = choose|k: int| 0 <= k < a.len() && a[k] == b[i];
            assert(a[k] == b[i]);
            reordered_fits(world, other, child_of(dir, b[i].id), (h - 1) as nat);
        }
    }
}

/// The order in which directories list their entries does not matter for the size of a directory.
pub proof fn order_does_not_matter(
    world: Snapshot,
    other: Snapshot,
    dir: Seq<PartView>,
    h: nat,
) -> (n: nat)
    requires
        world.is_reordered(other),
        world.fits(dir, h),
    ensures
        other.bytes(dir, h) == world.bytes(dir, h),
        WalkView::start(dir).run(other, n) == (WalkView {
            todo: Seq::<TaskView>::empty(),
            total: world.bytes(dir, h),
        }),
{
    bytes_stay(world, other, dir, h);
    reordered_fits(world, other, dir, h);
    walk_adds_up(other, dir, h)
}

} // verus!
