//! The size of a directory: the walk that adds up the files in it and below it.
//!
//! The walk decides what to ask the file system next; the caller asks, and hands the answer back.
use vstd::prelude::*;

use crate::listing::{names_view, EntryName, Meta, NameView, Names, Snapshot};
use crate::path::{child_of, FsPath, PartView};

verus! {

/// Something that a walk has still to do.
enum Task {
    /// Read a directory.
    List(FsPath),
    /// Look at the entries of a directory that are left.
    Entries(FsPath, Names),
}

/// What a task of a walk stands for.
pub enum TaskView {
    List(Seq<PartView>),
    Entries(Seq<PartView>, Seq<NameView>),
}

impl Task {
    closed spec fn view(&self) -> TaskView {
        match self {
            Task::List(path) => TaskView::List(path@),
            Task::Entries(dir, left) => TaskView::Entries(dir@, left@),
        }
    }
}

/// What the caller has to ask the file system.
#[derive(Debug, PartialEq, Eq)]
pub enum Query {
    /// The names in a directory.
    ReadDir(FsPath),
    /// The kind of a path.
    Stat(FsPath),
}

/// What a [`Query`] stands for.
pub enum QueryView {
    ReadDir(Seq<PartView>),
    Stat(Seq<PartView>),
}

impl View for Query {
    type V = QueryView;

    open spec fn view(&self) -> QueryView {
        match self {
            Query::ReadDir(path) => QueryView::ReadDir(path@),
            Query::Stat(path) => QueryView::Stat(path@),
        }
    }
}

/// A walk under way: what is still to do, the next task last, and the bytes added up so far.
pub struct SizeWalk {
    todo: Vec<Task>,
    total: u64,
}

/// What a [`SizeWalk`] stands for.
#[verifier::ext_equal]
pub struct WalkView {
    pub todo: Seq<TaskView>,
    pub total: nat,
}

impl View for SizeWalk {
    type V = WalkView;

    closed spec fn view(&self) -> WalkView {
        WalkView {
            todo: Seq::new(self.todo@.len(), |i: int| self.todo@[i].view()),
            total: self.total as nat,
        }
    }
}

/// The tasks with those entries of `dir` put on top that are left, if any is.
pub open spec fn with_entries(
    todo: Seq<TaskView>,
    dir: Seq<PartView>,
    left: Seq<NameView>,
) -> Seq<TaskView> {
    if left.len() == 0 {
        todo
    } else {
        todo.push(TaskView::Entries(dir, left))
    }
}

impl WalkView {
    /// A walk through `dir` that has not begun.
    pub open spec fn start(dir: Seq<PartView>) -> WalkView {
        WalkView { todo: seq![TaskView::List(dir)], total: 0 }
    }

    /// Whether each task with entries has one left.
    pub open spec fn wf(self) -> bool {
        forall|i: int|
            0 <= i < self.todo.len() ==> (#[trigger] self.todo[i] matches TaskView::Entries(_, left)
                ==> left.len() > 0)
    }

    /// What is to be asked next; nothing when the walk is over.
    pub open spec fn query(self) -> Option<QueryView> {
        if self.todo.len() == 0 {
            None
        } else {
            match self.todo.last() {
                TaskView::List(path) => Some(QueryView::ReadDir(path)),
                TaskView::Entries(dir, left) => Some(
                    QueryView::Stat(child_of(dir, left.first().id)),
                ),
            }
        }
    }

    /// The walk after the directory that it asked for was read, or could not be.
    pub open spec fn listed(self, names: Option<Seq<NameView>>) -> WalkView {
        match (self.todo.last(), names) {
            (TaskView::List(path), Some(all)) => WalkView {
                todo: with_entries(self.todo.drop_last(), path, all),
                ..self
            },
            _ => WalkView { todo: self.todo.drop_last(), ..self },
        }
    }

    /// The walk after the kind of the entry that it asked for was told, or could not be.
    pub open spec fn examined(self, kind: Option<Meta>) -> WalkView {
        match self.todo.last() {
            TaskView::Entries(dir, left) => {
                let rest = with_entries(self.todo.drop_last(), dir, left.drop_first());
                match kind {
                    Some(Meta::Dir) => WalkView {
                        todo: rest.push(TaskView::List(child_of(dir, left.first().id))),
                        ..self
                    },
                    Some(Meta::File(len)) => WalkView { todo: rest, total: self.total + len as nat },
                    None => WalkView { todo: rest, ..self },
                }
            },
            TaskView::List(_) => self,
        }
    }

    /// The walk after one question, answered by `world`.
    pub open spec fn step(self, world: Snapshot) -> WalkView {
        match self.query() {
            Some(QueryView::ReadDir(path)) => self.listed(world.names(path)),
            Some(QueryView::Stat(path)) => self.examined(world.kind(path)),
            None => self,
        }
    }

    /// The walk after `n` questions, answered by `world`.
    pub open spec fn run(self, world: Snapshot, n: nat) -> WalkView
        decreases n,
    {
        if n == 0 {
            self
        } else {
            self.step(world).run(world, (n - 1) as nat)
        }
    }
}

/// Starts the walk that adds up the bytes of all files in `path` and in the directories below it.
/// What cannot be read counts for nothing.
pub fn dir_size(path: FsPath) -> (walk: SizeWalk)
    ensures
        walk@ == WalkView::start(path@),
        walk@.wf(),
{
    let mut todo: Vec<Task> = Vec::new();
    todo.push(Task::List(path));
    let walk = SizeWalk { todo, total: 0 };
    assert(walk@ =~= WalkView::start(path@));
    walk
}

/// Puts the entries of `dir` that are left on top, if any is.
fn push_entries(todo: &mut Vec<Task>, dir: FsPath, left: Names)
    ensures
        Seq::new(final(todo)@.len(), |i: int| final(todo)@[i].view()) == with_entries(
            Seq::new(old(todo)@.len(), |i: int| old(todo)@[i].view()),
            dir@,
            left@,
        ),
{
    let ghost before = Seq::new(todo@.len(), |i: int| todo@[i].view());
    if !left.is_empty() {
        todo.push(Task::Entries(dir, left));
    }
    assert(Seq::new(todo@.len(), |i: int| todo@[i].view()) =~= with_entries(before, dir@, left@));
}

impl SizeWalk {
    /// What is to be asked next; nothing when the walk is over.
    pub fn query(&self) -> (query: Option<Query>)
        requires
            self@.wf(),
        ensures
            match query {
                Some(q) => self@.query() == Some(q@),
                None => self@.query() is None,
            },
    {
        let n: usize = self.todo.len();
        if n == 0 {
            return None;
        }
        assert(self@.todo.last() == self.todo@[n - 1].view());
        match &self.todo[n - 1] {
            Task::List(path) => Some(Query::ReadDir(path.clone())),
            Task::Entries(dir, left) => Some(Query::Stat(dir.child(&left.first().id))),
        }
    }

    /// The bytes added up so far.
    pub fn total(&self) -> (total: u64)
        ensures
            total == self@.total,
    {
        self.total
    }

    /// Whether an entry of the given kind can be added.
    pub fn has_room(&self, kind: Option<Meta>) -> (room: bool)
        ensures
            room == (kind matches Some(Meta::File(len)) ==> self@.total + len <= u64::MAX),
    {
        match kind {
            Some(Meta::File(len)) => len <= u64::MAX - self.total,
            _ => true,
        }
    }

    /// Takes in the names of the directory that was asked for, or that it could not be read.
    pub fn listed(&mut self, names: Option<Vec<EntryName>>)
        requires
            old(self)@.wf(),
            old(self)@.query() matches Some(QueryView::ReadDir(_)),
        ensures
            final(self)@.wf(),
            final(self)@ == old(self)@.listed(
                match names {
                    Some(all) => Some(names_view(all@)),
                    None => None,
                },
            ),
    {
        let ghost before = self@;
        if let Some(task) = self.todo.pop() {
            assert(before.todo.last() == task.view());
            assert(self@.todo =~= before.todo.drop_last());
            if let Task::List(path) = task {
                if let Some(all) = names {
                    push_entries(&mut self.todo, path, Names::new(all));
                }
            }
        }
    }

    /// Takes in the kind of the entry that was asked for, or that it could not be told.
    pub fn examined(&mut self, kind: Option<Meta>)
        requires
            old(self)@.wf(),
            old(self)@.query() matches Some(QueryView::Stat(_)),
            kind matches Some(Meta::File(len)) ==> old(self)@.total + len <= u64::MAX,
        ensures
            final(self)@.wf(),
            final(self)@ == old(self)@.examined(kind),
    {
        let ghost before = self@;
        if let Some(task) = self.todo.pop() {
            assert(before.todo.last() == task.view());
            assert(self@.todo =~= before.todo.drop_last());
            if let Task::Entries(dir, left) = task {
                let mut left = left;
                let path = dir.child(&left.first().id);
                left.advance();
                push_entries(&mut self.todo, dir, left);
                let ghost rest = self@;
                match kind {
                    Some(Meta::Dir) => {
                        self.todo.push(Task::List(path));
                        assert(self@.todo =~= rest.todo.push(TaskView::List(path@)));
                    },
                    Some(Meta::File(len)) => {
                        self.total += len;
                    },
                    None => {},
                }
            }
        }
    }
}

/// A run goes on where it was left.
proof fn run_continues(world: Snapshot, walk: WalkView, a: nat, b: nat)
    ensures
        walk.run(world, a).run(world, b) == walk.run(world, a + b),
    decreases a,
{
    if a > 0 {
        run_continues(world, walk.step(world), (a - 1) as nat, b);
    }
}

/// Reading a directory adds its bytes, and leaves the other tasks as they were.
proof fn list_adds(world: Snapshot, walk: WalkView, rest: Seq<TaskView>, dir: Seq<PartView>, h: nat) -> (n:
    nat)
    requires
        walk.todo == rest.push(TaskView::List(dir)),
        world.fits(dir, h),
    ensures
        walk.run(world, n) == (WalkView { todo: rest, total: walk.total + world.bytes(dir, h) }),
    decreases h, 1nat, 0nat,
{
    let next = walk.step(world);
    assert(walk.todo.drop_last() =~= rest);
    let m = match world.names(dir) {
        Some(names) => entries_add(world, next, rest, dir, names, h),
        None => 0,
    };
    assert(walk.run(world, m + 1) == next.run(world, m));
    m + 1
}

/// Looking at the entries of a directory that are left adds their bytes, and leaves the other
/// tasks as they were.
proof fn entries_add(
    world: Snapshot,
    walk: WalkView,
    rest: Seq<TaskView>,
    dir: Seq<PartView>,
    left: Seq<NameView>,
    h: nat,
) -> (n: nat)
    requires
        walk.todo == with_entries(rest, dir, left),
        forall|i: int|
            0 <= i < left.len() && world.kind(child_of(dir, (#[trigger] left[i]).id)) == Some(
                Meta::Dir,
            ) ==> h > 0 && world.fits(child_of(dir, left[i].id), (h - 1) as nat),
    ensures
        walk.run(world, n) == (WalkView {
            todo: rest,
            total: walk.total + world.bytes_of(dir, left, h),
        }),
    decreases h, 0nat, left.len(),
{
    if left.len() == 0 {
        assert(walk.run(world, 0) == walk);
        0
    } else {
        let path = child_of(dir, left.first().id);
        let after = with_entries(rest, dir, left.drop_first());
        let next = walk.step(world);
        assert(walk.todo.drop_last() =~= rest);
        assert(left[0] == left.first());
        let a: nat = if world.kind(path) == Some(Meta::Dir) {
            list_adds(world, next, after, path, (h - 1) as nat)
        } else {
            0
        };
        let done = next.run(world, a);
        assert(done.todo == after);
        assert(done.total == walk.total + world.bytes_at(path, h));
        assert forall|i: int|
            0 <= i < left.drop_first().len() && world.kind(
                child_of(dir, (#[trigger] left.drop_first()[i]).id),
            ) == Some(Meta::Dir) implies h > 0 && world.fits(
            child_of(dir, left.drop_first()[i].id),
            (h - 1) as nat,
        ) by {
            assert(left.drop_first()[i] == left[i + 1]);
        }
        let b = entries_add(world, done, rest, dir, left.drop_first(), h);
        run_continues(world, next, a, b);
        assert(walk.run(world, a + b + 1) == next.run(world, a + b));
        a + b + 1
    }
}

/// The bytes added up never fall.
proof fn total_grows(world: Snapshot, walk: WalkView, n: nat)
    ensures
        walk.total <= walk.run(world, n).total,
    decreases n,
{
    if n > 0 {
        total_grows(world, walk.step(world), (n - 1) as nat);
    }
}

/// A walk that is over stays as it is.
pub proof fn over_stays(world: Snapshot, walk: WalkView, n: nat)
    requires
        walk.todo.len() == 0,
    ensures
        walk.run(world, n) == walk,
    decreases n,
{
    if n > 0 {
        over_stays(world, walk, (n - 1) as nat);
    }
}

/// A walk through a directory comes to an end, and what it has added up then is the size of the
/// directory: the bytes of all files in it and below it.
pub proof fn walk_adds_up(world: Snapshot, dir: Seq<PartView>, h: nat) -> (n: nat)
    requires
        world.fits(dir, h),
    ensures
        WalkView::start(dir).run(world, n) == (WalkView {
            todo: Seq::empty(),
            total: world.bytes(dir, h),
        }),
{
    assert(WalkView::start(dir).todo =~= Seq::<TaskView>::empty().push(TaskView::List(dir)));
    list_adds(world, WalkView::start(dir), Seq::empty(), dir, h)
}

/// At no point has a walk added up more than the size of the directory.
pub proof fn walk_stays_below(world: Snapshot, dir: Seq<PartView>, h: nat, k: nat)
    requires
        world.fits(dir, h),
    ensures
        WalkView::start(dir).run(world, k).total <= world.bytes(dir, h),
{
    let n = walk_adds_up(world, dir, h);
    let start = WalkView::start(dir);
    if k <= n {
        run_continues(world, start, k, (n - k) as nat);
        total_grows(world, start.run(world, k), (n - k) as nat);
    } else {
        run_continues(world, start, n, (k - n) as nat);
        over_stays(world, start.run(world, n), (k - n) as nat);
    }
}

} // verus!
