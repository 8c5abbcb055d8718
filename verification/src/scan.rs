//! The scan of a directory tree, down to a given depth.
//!
//! The scan decides what to do next: ask the file system something, send a message, or have the
//! window drawn again. The caller does it, and hands the outcome back.
use vstd::prelude::*;

use crate::listing::{names_view, EntryName, Meta, NameView, Names};
use crate::path::{child_of, FsPath, PartView};
use crate::tree::{Msg, MsgView, Node, NodeView};
use crate::walk::{dir_size, Query, QueryView, SizeWalk, WalkView};

verus! {

/// Something that a scan has still to do. Each task but the last two belongs to a directory; its
/// depth is how many levels that directory lies below the root.
enum Step {
    /// Read a directory.
    Open { path: FsPath, depth: usize },
    /// Send that a directory was opened.
    Announce { depth: usize },
    /// Look at the entries of a directory that are left.
    Entries { dir: FsPath, left: Names, depth: usize },
    /// Send an entry.
    Offer { parent: FsPath, node: Node, depth: usize },
    /// Have the window drawn again.
    Refresh { depth: usize },
    /// Find out the size of a directory.
    Measure { path: FsPath, walk: SizeWalk, depth: usize },
    /// Send the size of a directory.
    Report { path: FsPath, size: u64, depth: usize },
    /// Send that the scan is over.
    Finish,
    /// Have the window drawn for the last time.
    LastRefresh,
}

/// What a task of a scan stands for.
pub enum StepView {
    Open { path: Seq<PartView>, depth: nat },
    Announce { depth: nat },
    Entries { dir: Seq<PartView>, left: Seq<NameView>, depth: nat },
    Offer { parent: Seq<PartView>, node: NodeView, depth: nat },
    Refresh { depth: nat },
    Measure { path: Seq<PartView>, walk: WalkView, depth: nat },
    Report { path: Seq<PartView>, size: nat, depth: nat },
    Finish,
    LastRefresh,
}

impl Step {
    closed spec fn view(&self) -> StepView {
        match self {
            Step::Open { path, depth } => StepView::Open { path: path@, depth: *depth as nat },
            Step::Announce { depth } => StepView::Announce { depth: *depth as nat },
            Step::Entries { dir, left, depth } => StepView::Entries {
                dir: dir@,
                left: left@,
                depth: *depth as nat,
            },
            Step::Offer { parent, node, depth } => StepView::Offer {
                parent: parent@,
                node: node@,
                depth: *depth as nat,
            },
            Step::Refresh { depth } => StepView::Refresh { depth: *depth as nat },
            Step::Measure { path, walk, depth } => StepView::Measure {
                path: path@,
                walk: walk@,
                depth: *depth as nat,
            },
            Step::Report { path, size, depth } => StepView::Report {
                path: path@,
                size: *size as nat,
                depth: *depth as nat,
            },
            Step::Finish => StepView::Finish,
            Step::LastRefresh => StepView::LastRefresh,
        }
    }

    /// Whether the task belongs to a directory at the given depth or deeper.
    fn lies_within(&self, depth: usize) -> (within: bool)
        ensures
            within == self.view().lies_within(depth as nat),
    {
        match self {
            Step::Open { depth: d, .. } => *d >= depth,
            Step::Announce { depth: d } => *d >= depth,
            Step::Entries { depth: d, .. } => *d >= depth,
            Step::Offer { depth: d, .. } => *d >= depth,
            Step::Refresh { depth: d } => *d >= depth,
            Step::Measure { depth: d, .. } => *d >= depth,
            Step::Report { depth: d, .. } => *d >= depth,
            Step::Finish => false,
            Step::LastRefresh => false,
        }
    }
}

impl StepView {
    /// Whether the task belongs to a directory at the given depth or deeper.
    pub open spec fn lies_within(self, depth: nat) -> bool {
        match self {
            StepView::Open { depth: d, .. } => d >= depth,
            StepView::Announce { depth: d } => d >= depth,
            StepView::Entries { depth: d, .. } => d >= depth,
            StepView::Offer { depth: d, .. } => d >= depth,
            StepView::Refresh { depth: d } => d >= depth,
            StepView::Measure { depth: d, .. } => d >= depth,
            StepView::Report { depth: d, .. } => d >= depth,
            StepView::Finish => false,
            StepView::LastRefresh => false,
        }
    }

    /// Whether the task has something to do, and can be done.
    pub open spec fn wf(self, max_depth: nat) -> bool {
        match self {
            StepView::Entries { left, depth, .. } => left.len() > 0 && depth < max_depth,
            StepView::Open { depth, .. } => depth < max_depth,
            StepView::Measure { walk, .. } => walk.wf() && walk.todo.len() > 0,
            _ => true,
        }
    }
}

/// What the caller of a scan has to do.
#[derive(Debug, PartialEq, Eq)]
pub enum Action {
    /// Ask the file system for the names in a directory.
    ReadDir(FsPath),
    /// Ask the file system for the kind of a path.
    Stat(FsPath),
    /// Send a message.
    Send(Msg),
    /// Have the window drawn again.
    Refresh,
    /// Nothing: the scan is over.
    Finished,
}

/// What an [`Action`] stands for.
pub enum ActionView {
    ReadDir(Seq<PartView>),
    Stat(Seq<PartView>),
    Send(MsgView),
    Refresh,
    Finished,
}

impl View for Action {
    type V = ActionView;

    open spec fn view(&self) -> ActionView {
        match self {
            Action::ReadDir(path) => ActionView::ReadDir(path@),
            Action::Stat(path) => ActionView::Stat(path@),
            Action::Send(msg) => ActionView::Send(msg@),
            Action::Refresh => ActionView::Refresh,
            Action::Finished => ActionView::Finished,
        }
    }
}

/// A scan under way: how deep it goes, and what is still to do, the next task last.
pub struct Scanner {
    max_depth: usize,
    tasks: Vec<Step>,
}

/// What a [`Scanner`] stands for.
#[verifier::ext_equal]
pub struct ScanView {
    pub max_depth: nat,
    pub tasks: Seq<StepView>,
}

spec fn steps_view(tasks: Seq<Step>) -> Seq<StepView> {
    Seq::new(tasks.len(), |i: int| tasks[i].view())
}

impl View for Scanner {
    type V = ScanView;

    closed spec fn view(&self) -> ScanView {
        ScanView { max_depth: self.max_depth as nat, tasks: steps_view(self.tasks@) }
    }
}

/// The node of an entry called `name` in `dir`.
pub open spec fn node_of(dir: Seq<PartView>, name: NameView, size: nat, is_dir: bool) -> NodeView {
    NodeView { name: name.text, path: child_of(dir, name.id), size, is_dir }
}

/// The tasks with those entries of `dir` put on top that are left, if any is.
pub open spec fn with_entries(
    tasks: Seq<StepView>,
    dir: Seq<PartView>,
    left: Seq<NameView>,
    depth: nat,
) -> Seq<StepView> {
    if left.len() == 0 {
        tasks
    } else {
        tasks.push(StepView::Entries { dir, left, depth })
    }
}

/// The tasks with a walk through `path` put on top, or, once it is over, the report of the size.
pub open spec fn with_walk(
    tasks: Seq<StepView>,
    path: Seq<PartView>,
    walk: WalkView,
    depth: nat,
) -> Seq<StepView> {
    if walk.todo.len() == 0 {
        tasks.push(StepView::Report { path, size: walk.total, depth })
    } else {
        tasks.push(StepView::Measure { path, walk, depth })
    }
}

/// The tasks without those on top that belong to a directory at the given depth or deeper.
pub open spec fn without_frame(tasks: Seq<StepView>, depth: nat) -> Seq<StepView>
    decreases tasks.len(),
{
    if tasks.len() > 0 && tasks.last().lies_within(depth) {
        without_frame(tasks.drop_last(), depth)
    } else {
        tasks
    }
}

/// When a directory is left because a message was refused, nothing of it is done any more: what
/// goes on is what was to be done before it was opened.
pub proof fn refused_leaves_directory(tasks: Seq<StepView>, depth: nat)
    ensures
        without_frame(tasks, depth).is_prefix_of(tasks),
        without_frame(tasks, depth).len() > 0 ==> !without_frame(tasks, depth).last().lies_within(
            depth,
        ),
        forall|i: int|
            without_frame(tasks, depth).len() <= i < tasks.len() ==> (
            #[trigger] tasks[i]).lies_within(depth),
    decreases tasks.len(),
{
    let left = without_frame(tasks, depth);
    if tasks.len() > 0 && tasks.last().lies_within(depth) {
        let rest = tasks.drop_last();
        refused_leaves_directory(rest, depth);
        assert(rest.subrange(0, left.len() as int) =~= tasks.subrange(0, left.len() as int));
        assert forall|i: int| left.len() <= i < tasks.len() implies (
        #[trigger] tasks[i]).lies_within(depth) by {
            if i < rest.len() {
                assert(rest[i] == tasks[i]);
            }
        }
    } else {
        assert(tasks.subrange(0, tasks.len() as int) =~= tasks);
    }
}

/// The tasks with those put on top that the directory `name` in `dir` gives rise to: the directory
/// is sent, then its size is found out and sent, and only then is it opened, if it does not lie
/// too deep.
pub open spec fn with_directory(
    tasks: Seq<StepView>,
    dir: Seq<PartView>,
    name: NameView,
    depth: nat,
    max_depth: nat,
) -> Seq<StepView> {
    let path = child_of(dir, name.id);
    let below = tasks.push(StepView::Refresh { depth });
    let opened = if depth + 1 < max_depth {
        below.push(StepView::Open { path, depth: depth + 1 })
    } else {
        below
    };
    opened.push(StepView::Refresh { depth }).push(
        StepView::Measure { path, walk: WalkView::start(path), depth },
    ).push(StepView::Refresh { depth }).push(
        StepView::Offer { parent: dir, node: node_of(dir, name, 0, true), depth },
    )
}

/// The tasks with those put on top that the file `name` in `dir` gives rise to. Nothing is said
/// of an empty file.
pub open spec fn with_file(
    tasks: Seq<StepView>,
    dir: Seq<PartView>,
    name: NameView,
    size: nat,
    depth: nat,
) -> Seq<StepView> {
    if size == 0 {
        tasks
    } else {
        tasks.push(StepView::Refresh { depth }).push(
            StepView::Offer { parent: dir, node: node_of(dir, name, size, false), depth },
        )
    }
}

impl ScanView {
    /// A scan of `root` that has not begun.
    pub open spec fn start(root: Seq<PartView>, max_depth: nat) -> ScanView {
        let end = seq![StepView::LastRefresh, StepView::Finish];
        ScanView {
            max_depth,
            tasks: if max_depth > 0 {
                end.push(StepView::Open { path: root, depth: 0 })
            } else {
                end
            },
        }
    }

    /// Whether each task can be done.
    pub open spec fn wf(self) -> bool {
        forall|i: int| 0 <= i < self.tasks.len() ==> (#[trigger] self.tasks[i]).wf(self.max_depth)
    }

    /// What is to be done next.
    pub open spec fn action(self) -> ActionView {
        if self.tasks.len() == 0 {
            ActionView::Finished
        } else {
            match self.tasks.last() {
                StepView::Open { path, .. } => ActionView::ReadDir(path),
                StepView::Announce { .. } => ActionView::Send(MsgView::DirCount),
                StepView::Entries { dir, left, .. } => ActionView::Stat(
                    child_of(dir, left.first().id),
                ),
                StepView::Offer { parent, node, .. } => ActionView::Send(
                    MsgView::Entry { parent, node },
                ),
                StepView::Refresh { .. } => ActionView::Refresh,
                StepView::Measure { walk, .. } => match walk.query() {
                    Some(QueryView::ReadDir(path)) => ActionView::ReadDir(path),
                    Some(QueryView::Stat(path)) => ActionView::Stat(path),
                    None => ActionView::Finished,
                },
                StepView::Report { path, size, .. } => ActionView::Send(
                    MsgView::SizeReady { path, size },
                ),
                StepView::Finish => ActionView::Send(MsgView::Done),
                StepView::LastRefresh => ActionView::Refresh,
            }
        }
    }

    /// Whether an entry of the given kind leaves the size that is being added up within 64 bits.
    pub open spec fn has_room(self, kind: Option<Meta>) -> bool {
        self.tasks.len() > 0 ==> (self.tasks.last() matches StepView::Measure { walk, .. } ==> (
        kind matches Some(Meta::File(len)) ==> walk.total + len <= u64::MAX))
    }

    /// The scan with other tasks.
    pub open spec fn with_tasks(self, tasks: Seq<StepView>) -> ScanView {
        ScanView { tasks, ..self }
    }

    /// The scan after the directory that it asked for was read, or could not be.
    pub open spec fn listed(self, names: Option<Seq<NameView>>) -> ScanView {
        let rest = self.tasks.drop_last();
        match self.tasks.last() {
            StepView::Open { path, depth } => match names {
                Some(all) => self.with_tasks(
                    with_entries(rest, path, all, depth).push(StepView::Announce { depth }),
                ),
                None => self.with_tasks(rest),
            },
            StepView::Measure { path, walk, depth } => self.with_tasks(
                with_walk(rest, path, walk.listed(names), depth),
            ),
            _ => self,
        }
    }

    /// The scan after the kind of the path that it asked for was told, or could not be.
    pub open spec fn examined(self, kind: Option<Meta>) -> ScanView {
        let rest = self.tasks.drop_last();
        match self.tasks.last() {
            StepView::Entries { dir, left, depth } => {
                let after = with_entries(rest, dir, left.drop_first(), depth);
                match kind {
                    Some(Meta::Dir) => self.with_tasks(
                        with_directory(after, dir, left.first(), depth, self.max_depth),
                    ),
                    Some(Meta::File(len)) => self.with_tasks(
                        with_file(after, dir, left.first(), len as nat, depth),
                    ),
                    None => self.with_tasks(after),
                }
            },
            StepView::Measure { path, walk, depth } => self.with_tasks(
                with_walk(rest, path, walk.examined(kind), depth),
            ),
            _ => self,
        }
    }

    /// The scan after its message was taken, or was refused. A directory whose entry or size was
    /// refused is left at once.
    pub open spec fn sent(self, taken: bool) -> ScanView {
        let rest = self.tasks.drop_last();
        match self.tasks.last() {
            StepView::Offer { depth, .. } => self.with_tasks(
                if taken {
                    rest
                } else {
                    without_frame(rest, depth)
                },
            ),
            StepView::Report { depth, .. } => self.with_tasks(
                if taken {
                    rest
                } else {
                    without_frame(rest, depth)
                },
            ),
            _ => self.with_tasks(rest),
        }
    }

    /// The scan after the window was told to draw itself again.
    pub open spec fn refreshed(self) -> ScanView {
        self.with_tasks(self.tasks.drop_last())
    }
}

/// Starts a scan of `root`, `max_depth` levels deep.
///
/// Of each directory that it comes upon, it sends the entry, with size 0, finds out the size,
/// sends the size, and then opens the directory. When all is done it sends that it is.
pub fn scan_depth(root: FsPath, max_depth: usize) -> (scan: Scanner)
    ensures
        scan@ == ScanView::start(root@, max_depth as nat),
        scan@.wf(),
{
    let mut tasks: Vec<Step> = Vec::new();
    tasks.push(Step::LastRefresh);
    tasks.push(Step::Finish);
    if max_depth > 0 {
        tasks.push(Step::Open { path: root, depth: 0 });
    }
    let scan = Scanner { max_depth, tasks };
    assert(scan@.tasks =~= ScanView::start(root@, max_depth as nat).tasks);
    scan
}

impl Scanner {
    /// What is to be done next.
    pub fn action(&self) -> (action: Action)
        requires
            self@.wf(),
        ensures
            action@ == self@.action(),
    {
        let n: usize = self.tasks.len();
        if n == 0 {
            return Action::Finished;
        }
        assert(self@.tasks.last() == self.tasks@[n - 1].view());
        assert(self@.tasks.last().wf(self@.max_depth));
        match &self.tasks[n - 1] {
            Step::Open { path, .. } => Action::ReadDir(path.clone()),
            Step::Announce { .. } => Action::Send(Msg::DirCount {  }),
            Step::Entries { dir, left, .. } => Action::Stat(dir.child(&left.first().id)),
            Step::Offer { parent, node, .. } => Action::Send(
                Msg::Entry { parent: parent.clone(), node: node.clone() },
            ),
            Step::Refresh { .. } => Action::Refresh,
            Step::Measure { walk, .. } => match walk.query() {
                Some(Query::ReadDir(path)) => Action::ReadDir(path),
                Some(Query::Stat(path)) => Action::Stat(path),
                None => Action::Finished,
            },
            Step::Report { path, size, .. } => Action::Send(
                Msg::SizeReady { path: path.clone(), size: *size },
            ),
            Step::Finish => Action::Send(Msg::Done),
            Step::LastRefresh => Action::Refresh,
        }
    }

    /// Puts a task on top.
    fn push(&mut self, task: Step)
        ensures
            final(self)@ == old(self)@.with_tasks(old(self)@.tasks.push(task.view())),
    {
        let ghost before = self@;
        self.tasks.push(task);
        assert(self@.tasks =~= before.tasks.push(task.view()));
    }

    /// Takes the top task off.
    fn pop(&mut self) -> (task: Step)
        requires
            old(self)@.tasks.len() > 0,
        ensures
            task.view() == old(self)@.tasks.last(),
            final(self)@ == old(self)@.with_tasks(old(self)@.tasks.drop_last()),
    {
        let ghost before = self@;
        let task = match self.tasks.pop() {
            Some(task) => task,
            None => Step::Finish,
        };
        assert(self@.tasks =~= before.tasks.drop_last());
        task
    }

    /// Puts the entries of `dir` that are left on top, if any is.
    fn push_entries(&mut self, dir: FsPath, left: Names, depth: usize)
        ensures
            final(self)@ == old(self)@.with_tasks(
                with_entries(old(self)@.tasks, dir@, left@, depth as nat),
            ),
    {
        if !left.is_empty() {
            self.push(Step::Entries { dir, left, depth });
        }
    }

    /// Puts a walk on top, or, if it is over, the report of the size.
    fn push_walk(&mut self, path: FsPath, walk: SizeWalk, depth: usize)
        requires
            walk@.wf(),
        ensures
            final(self)@ == old(self)@.with_tasks(
                with_walk(old(self)@.tasks, path@, walk@, depth as nat),
            ),
    {
        if walk.query().is_none() {
            let size: u64 = walk.total();
            self.push(Step::Report { path, size, depth });
        } else {
            self.push(Step::Measure { path, walk, depth });
        }
    }

    /// Puts on top what the directory `name` in `dir` gives rise to.
    fn push_directory(&mut self, dir: FsPath, name: &EntryName, depth: usize)
        requires
            depth < old(self)@.max_depth,
        ensures
            final(self)@ == old(self)@.with_tasks(
                with_directory(old(self)@.tasks, dir@, name@, depth as nat, old(self)@.max_depth),
            ),
    {
        let path = dir.child(&name.id);
        self.push(Step::Refresh { depth });
        if depth + 1 < self.max_depth {
            self.push(Step::Open { path: path.clone(), depth: depth + 1 });
        }
        self.push(Step::Refresh { depth });
        self.push(Step::Measure { path: path.clone(), walk: dir_size(path.clone()), depth });
        self.push(Step::Refresh { depth });
        let node = Node { name: name.text.clone(), path, size: 0, is_dir: true };
        self.push(Step::Offer { parent: dir, node, depth });
    }

    /// Puts on top what the file `name` in `dir` gives rise to.
    fn push_file(&mut self, dir: FsPath, name: &EntryName, size: u64, depth: usize)
        ensures
            final(self)@ == old(self)@.with_tasks(
                with_file(old(self)@.tasks, dir@, name@, size as nat, depth as nat),
            ),
    {
        if size > 0 {
            let path = dir.child(&name.id);
            self.push(Step::Refresh { depth });
            let node = Node { name: name.text.clone(), path, size, is_dir: false };
            self.push(Step::Offer { parent: dir, node, depth });
        }
    }

    /// Whether an entry of the given kind can be taken in: whether the size that is being added up
    /// does not become too large for it.
    pub fn has_room(&self, kind: Option<Meta>) -> (room: bool)
        ensures
            room == self@.has_room(kind),
    {
        let n: usize = self.tasks.len();
        if n == 0 {
            return true;
        }
        assert(self@.tasks.last() == self.tasks@[n - 1].view());
        match &self.tasks[n - 1] {
            Step::Measure { walk, .. } => walk.has_room(kind),
            _ => true,
        }
    }

    /// Takes in the names of the directory that was asked for, or that it could not be read.
    pub fn listed(&mut self, names: Option<Vec<EntryName>>)
        requires
            old(self)@.wf(),
            old(self)@.action() matches ActionView::ReadDir(_),
        ensures
            final(self)@.wf(),
            final(self)@ == old(self)@.listed(
                match names {
                    Some(all) => Some(names_view(all@)),
                    None => None,
                },
            ),
    {
        let ghost before = self@;
        assert(before.tasks.last().wf(before.max_depth));
        match self.pop() {
            Step::Open { path, depth } => {
                if let Some(all) = names {
                    self.push_entries(path, Names::new(all), depth);
                    self.push(Step::Announce { depth });
                }
            },
            Step::Measure { path, walk, depth } => {
                let mut walk = walk;
                walk.listed(names);
                self.push_walk(path, walk, depth);
            },
            _ => {},
        }
    }

    /// Takes in the kind of the path that was asked for, or that it could not be told.
    pub fn examined(&mut self, kind: Option<Meta>)
        requires
            old(self)@.wf(),
            old(self)@.action() matches ActionView::Stat(_),
            old(self)@.has_room(kind),
        ensures
            final(self)@.wf(),
            final(self)@ == old(self)@.examined(kind),
    {
        let ghost before = self@;
        assert(before.tasks.last().wf(before.max_depth));
        match self.pop() {
            Step::Entries { dir, left, depth } => {
                let name = EntryName {
                    id: left.first().id.clone(),
                    text: left.first().text.clone(),
                };
                let mut left = left;
                left.advance();
                self.push_entries(dir.clone(), left, depth);
                match kind {
                    Some(Meta::Dir) => self.push_directory(dir, &name, depth),
                    Some(Meta::File(len)) => self.push_file(dir, &name, len, depth),
                    None => {},
                }
            },
            Step::Measure { path, walk, depth } => {
                let mut walk = walk;
                walk.examined(kind);
                self.push_walk(path, walk, depth);
            },
            _ => {},
        }
    }

    /// Takes in whether the message was taken.
    pub fn sent(&mut self, taken: bool)
        requires
            old(self)@.wf(),
            old(self)@.action() matches ActionView::Send(_),
        ensures
            final(self)@.wf(),
            final(self)@ == old(self)@.sent(taken),
    {
        match self.pop() {
            Step::Offer { depth, .. } => {
                if !taken {
                    self.leave(depth);
                }
            },
            Step::Report { depth, .. } => {
                if !taken {
                    self.leave(depth);
                }
            },
            _ => {},
        }
    }

    /// Drops the tasks on top that belong to a directory at the given depth or deeper.
    fn leave(&mut self, depth: usize)
        requires
            old(self)@.wf(),
        ensures
            final(self)@.wf(),
            final(self)@ == old(self)@.with_tasks(
                without_frame(old(self)@.tasks, depth as nat),
            ),
    {
        while self.tasks.len() > 0 && self.tasks[self.tasks.len() - 1].lies_within(depth)
            invariant
                self@.wf(),
                self@.max_depth == old(self)@.max_depth,
                without_frame(self@.tasks, depth as nat) == without_frame(
                    old(self)@.tasks,
                    depth as nat,
                ),
            decreases self@.tasks.len(),
        {
            let _ = self.pop();
        }
    }

    /// Takes in that the window was told to draw itself again.
    pub fn refreshed(&mut self)
        requires
            old(self)@.wf(),
            old(self)@.action() is Refresh,
        ensures
            final(self)@.wf(),
            final(self)@ == old(self)@.refreshed(),
    {
        let _ = self.pop();
    }
}

} // verus!
