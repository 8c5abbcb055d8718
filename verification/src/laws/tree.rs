//! Which entries the tree shows, and at which depth.
use vstd::prelude::*;

use crate::explorer::AppView;
use crate::labels::{node_mark, node_text};
use crate::laws::state::entries_of;
use crate::path::PartView;
use crate::tree::NodeView;

verus! {

/// The entries among the rows that stand at depth `d`, in their order.
pub open spec fn at_depth(rows: Seq<(nat, NodeView)>, d: nat) -> Seq<NodeView>
    decreases rows.len(),
{
    if rows.len() == 0 {
        Seq::empty()
    } else {
        let rest = at_depth(rows.drop_first(), d);
        if rows.first().0 == d {
            seq![rows.first().1] + rest
        } else {
            rest
        }
    }
}

/// Whether the rows from `i` up to `j` are a row and those below it: all that follow, up to the next
/// that does not stand deeper.
pub open spec fn is_block(rows: Seq<(nat, NodeView)>, i: int, j: int) -> bool {
    &&& 0 <= i < j <= rows.len()
    &&& forall|k: int| i < k < j ==> (#[trigger] rows[k]).0 > rows[i].0
    &&& j < rows.len() ==> rows[j].0 <= rows[i].0
}

/// Whether the rows go down one level at a time, from depth `d`.
pub open spec fn goes_down_by_one(rows: Seq<(nat, NodeView)>, d: nat) -> bool {
    &&& rows.len() > 0 ==> rows[0].0 == d
    &&& forall|k: int| 0 <= k < rows.len() ==> (#[trigger] rows[k]).0 >= d
    &&& forall|k: int, m: int|
        0 <= k < rows.len() && m == k + 1 && m < rows.len() ==> (#[trigger] rows[m]).0 <= (
        #[trigger] rows[k]).0 + 1
}

proof fn at_depth_joins(a: Seq<(nat, NodeView)>, b: Seq<(nat, NodeView)>, d: nat)
    ensures
        at_depth(a + b, d) == at_depth(a, d) + at_depth(b, d),
    decreases a.len(),
{
    if a.len() == 0 {
        assert(a + b =~= b);
        assert(at_depth(a, d) + at_depth(b, d) =~= at_depth(b, d));
    } else {
        assert((a + b).drop_first() =~= a.drop_first() + b);
        at_depth_joins(a.drop_first(), b, d);
        let rest = at_depth(a.drop_first(), d);
        assert(seq![a.first().1] + (rest + at_depth(b, d)) =~= seq![a.first().1] + rest + at_depth(
            b,
            d,
        ));
    }
}

proof fn none_at_depth(rows: Seq<(nat, NodeView)>, d: nat)
    requires
        forall|k: int| 0 <= k < rows.len() ==> (#[trigger] rows[k]).0 > d,
    ensures
        at_depth(rows, d) == Seq::<NodeView>::empty(),
    decreases rows.len(),
{
    if rows.len() > 0 {
        assert(rows[0] == rows.first());
        assert forall|k: int| 0 <= k < rows.drop_first().len() implies (
        #[trigger] rows.drop_first()[k]).0 > d by {
            assert(rows.drop_first()[k] == rows[k + 1]);
        }
        none_at_depth(rows.drop_first(), d);
    }
}

/// What is shown below the first of some entries.
spec fn below_first(app: AppView, list: Seq<NodeView>, depth: nat, levels: nat) -> Seq<
    (nat, NodeView),
> {
    if app.is_open(list.first()) {
        app.subtree(list.first().path, depth + 1, (levels - 1) as nat)
    } else {
        Seq::empty()
    }
}

spec fn can_show(app: AppView, list: Seq<NodeView>, levels: nat) -> bool {
    levels > 0 && forall|i: int|
        0 <= i < list.len() && app.is_open(#[trigger] list[i]) ==> app.renderable(
            list[i].path,
            (levels - 1) as nat,
        )
}

proof fn rest_can_show(app: AppView, list: Seq<NodeView>, levels: nat)
    requires
        list.len() > 0,
        can_show(app, list, levels),
    ensures
        can_show(app, list.drop_first(), levels),
        app.is_open(list.first()) ==> app.renderable(list.first().path, (levels - 1) as nat),
{
    let rest = list.drop_first();
    assert(list[0] == list.first());
    assert forall|i: int| 0 <= i < rest.len() && app.is_open(#[trigger] rest[i]) implies app.renderable(
        rest[i].path,
        (levels - 1) as nat,
    ) by {
        assert(rest[i] == list[i + 1]);
    }
}

proof fn list_rows(app: AppView, list: Seq<NodeView>, depth: nat, levels: nat)
    requires
        can_show(app, list, levels),
    ensures
        goes_down_by_one(app.subtrees(list, depth, levels), depth),
        at_depth(app.subtrees(list, depth, levels), depth) == list,
    decreases levels, 0nat, list.len(),
{
    let out = app.subtrees(list, depth, levels);
    if list.len() > 0 {
        rest_can_show(app, list, levels);
        let head = seq![(depth, list.first())];
        let inner = below_first(app, list, depth, levels);
        let rest = app.subtrees(list.drop_first(), depth, levels);
        list_rows(app, list.drop_first(), depth, levels);
        if app.is_open(list.first()) {
            directory_rows(app, list.first().path, depth + 1, (levels - 1) as nat);
        }
        assert(out =~= head + inner + rest);
        none_at_depth(inner, depth);
        at_depth_joins(head + inner, rest, depth);
        at_depth_joins(head, inner, depth);
        assert(head.first() == (depth, list.first()));
        assert(at_depth(head.drop_first(), depth) == Seq::<NodeView>::empty());
        assert(at_depth(head, depth) =~= seq![list.first()]);
        assert(seq![list.first()] + Seq::empty() + list.drop_first() =~= list);
        let n = inner.len() as int;
        assert forall|k: int| 0 <= k < out.len() implies (#[trigger] out[k]).0 >= depth by {
            if 1 <= k <= n {
                assert(out[k] == inner[k - 1]);
            } else if k > n {
                assert(out[k] == rest[k - 1 - n]);
            }
        }
        assert forall|k: int, m: int|
            0 <= k < out.len() && m == k + 1 && m < out.len() implies (#[trigger] out[m]).0 <= (
        #[trigger] out[k]).0 + 1 by {
            if 1 <= m <= n {
                assert(out[m] == inner[m - 1]);
                if k >= 1 {
                    assert(out[k] == inner[k - 1]);
                }
            } else if m == n + 1 {
                assert(out[m] == rest[0]);
            } else {
                assert(out[m] == rest[m - 1 - n]);
                assert(out[k] == rest[k - 1 - n]);
            }
        }
    }
}

/// The entries that are shown for a directory start at the given depth and go down one level at a
/// time. At that depth stand the entries that are known of the directory, all of them, in their
/// order.
pub proof fn directory_rows(app: AppView, path: Seq<PartView>, depth: nat, levels: nat)
    requires
        app.renderable(path, levels),
    ensures
        goes_down_by_one(app.subtree(path, depth, levels), depth),
        at_depth(app.subtree(path, depth, levels), depth) == entries_of(app, path),
    decreases levels, 1nat, 0nat,
{
    let list = app.children(path);
    if list.len() > 0 {
        assert(can_show(app, list, levels));
        list_rows(app, list, depth, levels);
    } else {
        assert(entries_of(app, path) =~= Seq::empty());
    }
}

/// Below a directory that is unfolded stand, one level deeper, the entries that are known of it, all
/// of them, in their order, at whatever depth it stands. Below any other row stands nothing.
pub proof fn rows_below(app: AppView, path: Seq<PartView>, depth: nat, levels: nat, i: int, j: int)
    requires
        app.renderable(path, levels),
        is_block(app.subtree(path, depth, levels), i, j),
    ensures
        ({
            let rows = app.subtree(path, depth, levels);
            let (d, node) = rows[i];
            &&& node.is_dir && app.expanded.contains(node.path) ==> at_depth(
                rows.subrange(i + 1, j),
                d + 1,
            ) == entries_of(app, node.path)
            &&& !(node.is_dir && app.expanded.contains(node.path)) ==> j == i + 1
        }),
    decreases levels, 1nat, 0nat,
{
    let list = app.children(path);
    assert(list.len() > 0);
    assert(can_show(app, list, levels));
    list_rows_below(app, list, depth, levels, i, j);
}

proof fn list_rows_below(
    app: AppView,
    list: Seq<NodeView>,
    depth: nat,
    levels: nat,
    i: int,
    j: int,
)
    requires
        can_show(app, list, levels),
        is_block(app.subtrees(list, depth, levels), i, j),
    ensures
        ({
            let rows = app.subtrees(list, depth, levels);
            let (d, node) = rows[i];
            &&& node.is_dir && app.expanded.contains(node.path) ==> at_depth(
                rows.subrange(i + 1, j),
                d + 1,
            ) == entries_of(app, node.path)
            &&& !(node.is_dir && app.expanded.contains(node.path)) ==> j == i + 1
        }),
    decreases levels, 0nat, list.len(),
{
    let out = app.subtrees(list, depth, levels);
    assert(list.len() > 0);
    rest_can_show(app, list, levels);
    let head = seq![(depth, list.first())];
    let inner = below_first(app, list, depth, levels);
    let rest = app.subtrees(list.drop_first(), depth, levels);
    assert(out =~= head + inner + rest);
    list_rows(app, list.drop_first(), depth, levels);
    if app.is_open(list.first()) {
        directory_rows(app, list.first().path, depth + 1, (levels - 1) as nat);
    }
    let n = inner.len() as int;
    assert forall|k: int| 1 <= k <= n implies #[trigger] out[k] == inner[k - 1] by {}
    assert forall|k: int| n < k < out.len() implies #[trigger] out[k] == rest[k - 1 - n] by {}
    if i == 0 {
        if j <= n {
            assert(out[j] == inner[j - 1]);
        }
        if j > n + 1 {
            assert(out[n + 1] == rest[0]);
        }
        assert(j == n + 1);
        assert(out.subrange(1, j) =~= inner);
    } else if i <= n {
        if j > n + 1 {
            assert(out[n + 1] == rest[0]);
        }
        assert(j <= n + 1);
        assert(is_block(inner, i - 1, j - 1)) by {
            assert forall|k: int| i - 1 < k < j - 1 implies (#[trigger] inner[k]).0 > inner[i
                - 1].0 by {
                assert(out[k + 1] == inner[k]);
            }
            if j - 1 < inner.len() {
                assert(out[j] == inner[j - 1]);
            }
        }
        rows_below(app, list.first().path, depth + 1, (levels - 1) as nat, i - 1, j - 1);
        assert(out.subrange(i + 1, j) =~= inner.subrange(i, j - 1));
    } else {
        let p = i - 1 - n;
        let q = j - 1 - n;
        assert(is_block(rest, p, q)) by {
            assert forall|k: int| p < k < q implies (#[trigger] rest[k]).0 > rest[p].0 by {
                assert(out[k + 1 + n] == rest[k]);
            }
            if q < rest.len() {
                assert(out[j] == rest[q]);
            }
        }
        list_rows_below(app, list.drop_first(), depth, levels, p, q);
        assert(out.subrange(i + 1, j) =~= rest.subrange(p + 1, q));
    }
}

/// Each line of the tree tells of one entry that is shown: its depth, its path, its kind, the mark
/// of a directory that is unfolded or not, its text, and whether its size is pending or a scan of it
/// is under way. Nothing is shown as long as no disk is explored.
pub proof fn lines_tell_of_entries(app: AppView, i: int)
    ensures
        app.root_path is None ==> app.rows().len() == 0,
        app.root_path matches Some(root) ==> {
            let shown = app.subtree(root, 0, usize::MAX as nat);
            &&& app.rows().len() == shown.len()
            &&& 0 <= i < shown.len() ==> {
                let row = app.rows()[i];
                let (depth, node) = shown[i];
                let pending = node.is_dir && app.pending_sizes.contains(node.path);
                &&& row.depth == depth
                &&& row.path == node.path
                &&& row.is_dir == node.is_dir
                &&& row.mark == node_mark(node.is_dir, app.expanded.contains(node.path))
                &&& row.text == node_text(node.is_dir, node.name, node.size, pending)
                &&& row.spinner <==> pending || app.scans.dom().contains(node.path)
            }
        },
{
}

} // verus!
