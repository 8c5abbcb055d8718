//! The tree as the window shows it.
use vstd::prelude::*;

use crate::explorer::{AppView, FalconApp};
use crate::labels::{format_node, mark_node, node_mark, node_text};
use crate::path::{parent_of, FsPath, PartView};
use crate::tree::{Node, NodeView};

verus! {

impl AppView {
    /// Whether the tree below `path` is shown in at most `levels` levels.
    pub open spec fn renderable(self, path: Seq<PartView>, levels: nat) -> bool
        decreases levels,
    {
        self.children(path).len() > 0 ==> levels > 0 && forall|i: int|
            0 <= i < self.children(path).len() && self.is_open(#[trigger] self.children(path)[i])
                ==> self.renderable(self.children(path)[i].path, (levels - 1) as nat)
    }

    /// Whether what an entry holds is shown.
    pub open spec fn is_open(self, node: NodeView) -> bool {
        node.is_dir && self.expanded.contains(node.path)
    }

    /// The entries that are shown for the directory at `path`, each with its depth: those that are
    /// known of it, and below each directory that is unfolded those of that directory.
    pub open spec fn subtree(self, path: Seq<PartView>, depth: nat, levels: nat) -> Seq<
        (nat, NodeView),
    >
        decreases levels, 1nat, 0nat,
    {
        if levels > 0 && self.children(path).len() > 0 {
            self.subtrees(self.children(path), depth, levels)
        } else {
            Seq::empty()
        }
    }

    /// The entries that are shown for a list of entries.
    pub open spec fn subtrees(self, list: Seq<NodeView>, depth: nat, levels: nat) -> Seq<
        (nat, NodeView),
    >
        decreases levels, 0nat, list.len(),
        when levels > 0
    {
        if list.len() == 0 {
            Seq::empty()
        } else {
            let inner = if self.is_open(list.first()) {
                self.subtree(list.first().path, depth + 1, (levels - 1) as nat)
            } else {
                Seq::empty()
            };
            seq![(depth, list.first())] + inner + self.subtrees(list.drop_first(), depth, levels)
        }
    }

    /// Whether each entry is filed under the directory that it lies in.
    pub open spec fn well_filed(self) -> bool {
        forall|dir: Seq<PartView>, i: int|
            self.cache.dom().contains(dir) && 0 <= i < self.cache[dir].len() ==> parent_of(
                (#[trigger] self.cache[dir][i]).path,
            ) == Some(dir)
    }
}

/// What the entries that are shown stand for.
pub open spec fn shown_view(shown: Seq<(usize, Node)>) -> Seq<(nat, NodeView)> {
    Seq::new(shown.len(), |i: int| (shown[i].0 as nat, shown[i].1@))
}

/// How many levels are allowed for does not matter, as long as the tree is shown in so many.
pub proof fn subtree_is_one(app: AppView, path: Seq<PartView>, depth: nat, a: nat, b: nat)
    requires
        app.renderable(path, a),
        app.renderable(path, b),
    ensures
        app.subtree(path, depth, a) == app.subtree(path, depth, b),
    decreases a, 1nat, 0nat,
{
    if app.children(path).len() > 0 {
        subtrees_are_one(app, app.children(path), depth, a, b);
    }
}

proof fn subtrees_are_one(app: AppView, list: Seq<NodeView>, depth: nat, a: nat, b: nat)
    requires
        a > 0,
        b > 0,
        forall|i: int|
            0 <= i < list.len() && app.is_open(#[trigger] list[i]) ==> app.renderable(
                list[i].path,
                (a - 1) as nat,
            ) && app.renderable(list[i].path, (b - 1) as nat),
    ensures
        app.subtrees(list, depth, a) == app.subtrees(list, depth, b),
    decreases a, 0nat, list.len(),
{
    if list.len() > 0 {
        let rest = list.drop_first();
        assert(list[0] == list.first());
        if app.is_open(list.first()) {
            subtree_is_one(app, list.first().path, depth + 1, (a - 1) as nat, (b - 1) as nat);
        }
        assert forall|i: int|
            0 <= i < rest.len() && app.is_open(#[trigger] rest[i]) implies app.renderable(
            rest[i].path,
            (a - 1) as nat,
        ) && app.renderable(rest[i].path, (b - 1) as nat) by {
            assert(rest[i] == list[i + 1]);
        }
        subtrees_are_one(app, rest, depth, a, b);
    }
}

/// If each entry is filed under the directory that it lies in, the tree is shown in finitely many
/// levels, as no directory with entries has more than `longest` components.
pub proof fn well_filed_renders(app: AppView, path: Seq<PartView>, longest: nat, levels: nat)
    requires
        app.well_filed(),
        forall|dir: Seq<PartView>|
            (#[trigger] app.children(dir)).len() > 0 ==> dir.len() <= longest,
        levels + path.len() > longest,
    ensures
        app.renderable(path, levels),
    decreases levels,
{
    let list = app.children(path);
    if list.len() > 0 {
        assert forall|i: int|
            0 <= i < list.len() && app.is_open(#[trigger] list[i]) implies app.renderable(
            list[i].path,
            (levels - 1) as nat,
        ) by {
            let child = list[i].path;
            assert(app.cache[path][i] == list[i]);
            assert(parent_of(child) == Some(path));
            well_filed_renders(app, child, longest, (levels - 1) as nat);
        }
    }
}

impl FalconApp {
    /// Puts the entries that are shown for the directory at `path` behind those in `out`.
    pub fn render_tree(&self, path: &FsPath, depth: usize, out: &mut Vec<(usize, Node)>)
        requires
            self.wf(),
            self@.renderable(path@, (usize::MAX - depth) as nat),
        ensures
            shown_view(final(out)@) == shown_view(old(out)@) + self@.subtree(
                path@,
                depth as nat,
                (usize::MAX - depth) as nat,
            ),
        decreases usize::MAX - depth,
    {
        let ghost levels = (usize::MAX - depth) as nat;
        let ghost start = shown_view(out@);
        let children = match self.children(path) {
            Some(list) => list,
            None => {
                assert(shown_view(out@) =~= start + Seq::empty());
                return;
            },
        };
        let ghost list = self@.children(path@);
        if children.len() == 0 {
            assert(shown_view(out@) =~= start + Seq::empty());
            return;
        }
        let mut i: usize = 0;
        assert(list.skip(0) =~= list);
        assert(start + self@.subtree(path@, depth as nat, levels) == shown_view(out@)
            + self@.subtrees(list.skip(0), depth as nat, levels));
        while i < children.len()
            invariant
                self.wf(),
                levels == usize::MAX - depth,
                levels > 0,
                i <= children@.len(),
                list == crate::tree::nodes_view(children@),
                list == self@.children(path@),
                self@.renderable(path@, levels),
                start + self@.subtree(path@, depth as nat, levels) == shown_view(out@)
                    + self@.subtrees(list.skip(i as int), depth as nat, levels),
            decreases children@.len() - i,
        {
            let ghost before = shown_view(out@);
            let ghost left = list.skip(i as int);
            let child = &children[i];
            assert(left.first() == child@);
            assert(self@.children(path@)[i as int] == child@);
            assert(left.drop_first() =~= list.skip(i + 1));
            out.push((depth, child.clone()));
            let ghost pushed = shown_view(out@);
            assert(pushed =~= before + seq![(depth as nat, child@)]);
            let ghost rest = self@.subtrees(list.skip(i + 1), depth as nat, levels);
            if child.is_dir && self.is_expanded(&child.path) {
                self.render_tree(&child.path, depth + 1, out);
                let ghost inner = self@.subtree(
                    child@.path,
                    (depth + 1) as nat,
                    (levels - 1) as nat,
                );
                assert(before + (seq![(depth as nat, child@)] + inner + rest) =~= shown_view(out@)
                    + rest);
            } else {
                assert(before + (seq![(depth as nat, child@)] + Seq::empty() + rest)
                    =~= shown_view(out@) + rest);
            }
            i += 1;
        }
        assert(shown_view(out@) + self@.subtrees(list.skip(i as int), depth as nat, levels)
            =~= shown_view(out@));
    }

    /// Whether each entry is filed under the directory that it lies in.
    pub fn is_well_filed(&self) -> (filed: bool)
        requires
            self.wf(),
        ensures
            filed == self@.well_filed(),
            filed ==> forall|path: Seq<PartView>| #[trigger]
                self@.renderable(path, usize::MAX as nat),
    {
        let mut i: usize = 0;
        while i < self.cached_len()
            invariant
                self.wf(),
                i <= self.cached_dirs().len(),
                forall|a: int, k: int|
                    0 <= a < i && 0 <= k < self@.cache[#[trigger] self.cached_dirs()[a]].len()
                        ==> parent_of((#[trigger] self@.cache[self.cached_dirs()[a]][k]).path)
                        == Some(self.cached_dirs()[a]),
                forall|a: int|
                    0 <= a < i && self@.cache[#[trigger] self.cached_dirs()[a]].len() > 0
                        ==> self.cached_dirs()[a].len() < usize::MAX,
            decreases self.cached_dirs().len() - i,
        {
            let (dir, list) = self.cached(i);
            let ghost nodes = crate::tree::nodes_view(list@);
            let mut k: usize = 0;
            while k < list.len()
                invariant
                    self.wf(),
                    i < self.cached_dirs().len(),
                    k <= list@.len(),
                    dir@ == self.cached_dirs()[i as int],
                    self@.cache.dom().contains(dir@),
                    self@.cache[dir@] == crate::tree::nodes_view(list@),
                    forall|m: int|
                        0 <= m < k ==> parent_of((#[trigger] self@.cache[dir@][m]).path) == Some(
                            dir@,
                        ),
                    k > 0 ==> dir@.len() < usize::MAX,
                decreases list@.len() - k,
            {
                let ok = match list[k].path.parent() {
                    Some(parent) => parent.same(dir),
                    None => false,
                };
                assert(self@.cache[dir@][k as int] == list@[k as int]@);
                if !ok {
                    return false;
                }
                assert(list@[k as int].path@.len() == list@[k as int].path.parts.len());
                k += 1;
            }
            i += 1;
        }
        proof {
            self.cached_dirs_are_domain();
            assert forall|dir: Seq<PartView>, k: int|
                self@.cache.dom().contains(dir) && 0 <= k < self@.cache[dir].len() implies parent_of(
                (#[trigger] self@.cache[dir][k]).path,
            ) == Some(dir) by {
                let a = choose|a: int|
                    0 <= a < self.cached_dirs().len() && self.cached_dirs()[a] == dir;
                assert(self.cached_dirs()[a] == dir);
            }
            assert forall|dir: Seq<PartView>|
                (#[trigger] self@.children(dir)).len() > 0 implies dir.len() <= usize::MAX - 1 by {
                let a = choose|a: int|
                    0 <= a < self.cached_dirs().len() && self.cached_dirs()[a] == dir;
                assert(self.cached_dirs()[a] == dir);
            }
            assert forall|path: Seq<PartView>| #[trigger] self@.renderable(
                path,
                usize::MAX as nat,
            ) by {
                well_filed_renders(self@, path, (usize::MAX - 1) as nat, usize::MAX as nat);
            }
        }
        true
    }
}

/// One line of the tree.
#[derive(Debug, PartialEq, Eq)]
pub struct Row {
    pub depth: usize,
    pub path: FsPath,
    pub is_dir: bool,
    /// The mark before the text.
    pub mark: char,
    pub text: String,
    /// Whether the line shows that something is still going on.
    pub spinner: bool,
}

/// What a [`Row`] stands for.
pub struct RowView {
    pub depth: nat,
    pub path: Seq<PartView>,
    pub is_dir: bool,
    pub mark: char,
    pub text: Seq<char>,
    pub spinner: bool,
}

impl View for Row {
    type V = RowView;

    open spec fn view(&self) -> RowView {
        RowView {
            depth: self.depth as nat,
            path: self.path@,
            is_dir: self.is_dir,
            mark: self.mark,
            text: self.text@,
            spinner: self.spinner,
        }
    }
}

impl AppView {
    /// Whether the size of an entry is pending.
    pub open spec fn size_pending(self, node: NodeView) -> bool {
        node.is_dir && self.pending_sizes.contains(node.path)
    }

    /// The line of an entry.
    pub open spec fn row(self, depth: nat, node: NodeView) -> RowView {
        RowView {
            depth,
            path: node.path,
            is_dir: node.is_dir,
            mark: node_mark(node.is_dir, self.expanded.contains(node.path)),
            text: node_text(node.is_dir, node.name, node.size, self.size_pending(node)),
            spinner: self.size_pending(node) || self.scans.dom().contains(node.path),
        }
    }

    /// The lines of the tree.
    pub open spec fn rows(self) -> Seq<RowView> {
        match self.root_path {
            Some(root) => {
                let shown = self.subtree(root, 0, usize::MAX as nat);
                Seq::new(shown.len(), |i: int| self.row(shown[i].0, shown[i].1))
            },
            None => Seq::empty(),
        }
    }
}

/// What a list of lines stands for.
pub open spec fn rows_view(rows: Seq<Row>) -> Seq<RowView> {
    Seq::new(rows.len(), |i: int| rows[i]@)
}

impl FalconApp {
    /// The line of an entry.
    fn row(&self, depth: usize, node: &Node) -> (row: Row)
        requires
            self.wf(),
        ensures
            row@ == self@.row(depth as nat, node@),
    {
        let size_pending = node.is_dir && self.is_pending(&node.path);
        Row {
            depth,
            path: node.path.clone(),
            is_dir: node.is_dir,
            mark: mark_node(node.is_dir, self.is_expanded(&node.path)),
            text: format_node(node.is_dir, node.name.as_str(), node.size, size_pending),
            spinner: size_pending || self.is_scanning(&node.path),
        }
    }

    /// The lines of the tree.
    pub fn rows(&self) -> (rows: Vec<Row>)
        requires
            self.wf(),
            self@.root_path matches Some(root) ==> self@.renderable(root, usize::MAX as nat),
        ensures
            rows_view(rows@) == self@.rows(),
    {
        let mut rows: Vec<Row> = Vec::new();
        if let Some(root) = self.root_path() {
            let mut shown: Vec<(usize, Node)> = Vec::new();
            assert(shown_view(shown@) =~= Seq::empty());
            self.render_tree(root, 0, &mut shown);
            assert(shown_view(shown@) =~= self@.subtree(root@, 0, usize::MAX as nat));
            let mut i: usize = 0;
            while i < shown.len()
                invariant
                    self.wf(),
                    i <= shown@.len(),
                    rows@.len() == i,
                    forall|k: int|
                        0 <= k < i ==> (#[trigger] rows@[k])@ == self@.row(
                            shown@[k].0 as nat,
                            shown@[k].1@,
                        ),
                decreases shown@.len() - i,
            {
                rows.push(self.row(shown[i].0, &shown[i].1));
                i += 1;
            }
            assert forall|k: int| 0 <= k < shown@.len() implies #[trigger] rows_view(rows@)[k]
                == self@.rows()[k] by {
                assert(shown_view(shown@)[k] == (shown@[k].0 as nat, shown@[k].1@));
            }
        }
        assert(rows_view(rows@) =~= self@.rows());
        rows
    }
}

} // verus!
