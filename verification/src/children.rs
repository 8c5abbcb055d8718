//! The entries of one directory, as the tree holds them.
use vstd::prelude::*;

use crate::order::{
    arranged, is_order, is_sorting, key_less, order_is_onto, precedes, sort_children, sort_key,
    sort_keys, sorted_from, sorting_exists, sorting_is_unique,
};
use crate::path::{FsPath, PartView};
use crate::tree::{nodes_view, Node, NodeView};

verus! {

/// Whether one of the entries has the given path.
pub open spec fn holds(list: Seq<NodeView>, path: Seq<PartView>) -> bool {
    exists|i: int| 0 <= i < list.len() && (#[trigger] list[i]).path == path
}

/// The entries in the order in which they are shown.
pub open spec fn sorted_children(list: Seq<NodeView>) -> Seq<NodeView> {
    choose|sorted: Seq<NodeView>| sorted_from(list, sorted, sort_keys(list))
}

/// Whether the entries are in the order in which they are shown.
pub open spec fn is_sorted(list: Seq<NodeView>) -> bool {
    forall|i: int, j: int|
        0 <= i < j < list.len() ==> !key_less(
            sort_key(#[trigger] list[j]),
            sort_key(#[trigger] list[i]),
        )
}

/// Whether no two entries have the same path.
pub open spec fn distinct_entries(list: Seq<NodeView>) -> bool {
    forall|i: int, j: int|
        0 <= i < j < list.len() ==> (#[trigger] list[i]).path != (#[trigger] list[j]).path
}

/// Whether a list is one that the tree can hold: no entry twice, and in order.
pub open spec fn list_wf(list: Seq<NodeView>) -> bool {
    is_sorted(list) && distinct_entries(list)
}

/// The list with one more entry, unless an entry with its path is there already.
pub open spec fn with_node(list: Seq<NodeView>, node: NodeView) -> Seq<NodeView> {
    if holds(list, node.path) {
        list
    } else {
        sorted_children(list.push(node))
    }
}

/// The list without the entry of the given path.
pub open spec fn without_path(list: Seq<NodeView>, path: Seq<PartView>) -> Seq<NodeView> {
    list.filter(|node: NodeView| node.path != path)
}

/// The list with another size for the entry of the given path.
pub open spec fn with_size(list: Seq<NodeView>, path: Seq<PartView>, size: nat) -> Seq<NodeView> {
    Seq::new(
        list.len(),
        |i: int|
            if list[i].path == path {
                NodeView { size, ..list[i] }
            } else {
                list[i]
            },
    )
}

/// What a stable sort gives is the sorted list.
pub proof fn sorted_is_sorted_children(list: Seq<NodeView>, sorted: Seq<NodeView>)
    requires
        sorted_from(list, sorted, sort_keys(list)),
    ensures
        sorted == sorted_children(list),
{
    sorting_is_unique(list, sorted, sorted_children(list), sort_keys(list));
}

/// A sorted list is in order and holds what the list held.
pub proof fn sorting_keeps(list: Seq<NodeView>, sorted: Seq<NodeView>)
    requires
        sorted_from(list, sorted, sort_keys(list)),
    ensures
        sorted.len() == list.len(),
        is_sorted(sorted),
        distinct_entries(list) ==> distinct_entries(sorted),
        forall|node: NodeView| list.contains(node) <==> sorted.contains(node),
        forall|path: Seq<PartView>| holds(list, path) <==> holds(sorted, path),
{
    let keys = sort_keys(list);
    let order = choose|order: Seq<int>| #[trigger]
        is_sorting(keys, order) && sorted == arranged(list, order);
    let n = list.len();
    assert(is_order(order, n));
    assert forall|i: int, j: int| 0 <= i < j < n implies !key_less(
        sort_key(#[trigger] sorted[j]),
        sort_key(#[trigger] sorted[i]),
    ) by {
        assert(precedes(keys, order[i], order[j]));
        crate::order::key_less_asymmetric(keys[order[i]], keys[order[j]]);
    }
    assert forall|i: int, j: int|
        distinct_entries(list) && 0 <= i < j < n implies (#[trigger] sorted[i]).path != (
    #[trigger] sorted[j]).path by {
        assert(order[i] != order[j]);
        if order[i] < order[j] {
            assert(list[order[i]].path != list[order[j]].path);
        } else {
            assert(list[order[j]].path != list[order[i]].path);
        }
    }
    assert forall|x: int| 0 <= x < n implies exists|i: int|
        0 <= i < n && sorted[i] == #[trigger] list[x] by {
        let i = order_is_onto(order, n, x);
        assert(sorted[i] == list[x]);
    }
    assert forall|i: int| 0 <= i < n implies list.contains(#[trigger] sorted[i]) by {
        assert(sorted[i] == list[order[i]]);
    }
    assert forall|node: NodeView| list.contains(node) <==> sorted.contains(node) by {
        if list.contains(node) {
            let x = choose|x: int| 0 <= x < n && list[x] == node;
            assert(list[x] == node);
        }
    }
    assert forall|path: Seq<PartView>| holds(list, path) <==> holds(sorted, path) by {
        if holds(list, path) {
            let x = choose|x: int| 0 <= x < n && (#[trigger] list[x]).path == path;
            let i = choose|i: int| 0 <= i < n && sorted[i] == list[x];
            assert(sorted[i].path == path);
        }
        if holds(sorted, path) {
            let i = choose|i: int| 0 <= i < n && (#[trigger] sorted[i]).path == path;
            assert(list[order[i]].path == path);
        }
    }
}

/// A list with one more entry holds what it held, and the entry.
pub proof fn with_node_holds(list: Seq<NodeView>, node: NodeView)
    requires
        list_wf(list),
        !holds(list, node.path),
    ensures
        list_wf(with_node(list, node)),
        forall|n: NodeView| #[trigger]
            with_node(list, node).contains(n) <==> list.contains(n) || n == node,
{
    let pushed = list.push(node);
    let sorted = with_node(list, node);
    let order = sorting_exists(sort_keys(pushed));
    assert(sorted_from(pushed, arranged(pushed, order), sort_keys(pushed)));
    assert(distinct_entries(pushed)) by {
        assert forall|i: int, j: int| 0 <= i < j < pushed.len() implies (
        #[trigger] pushed[i]).path != (#[trigger] pushed[j]).path by {
            if j < list.len() {
                assert(list[i].path != list[j].path);
            } else {
                assert(pushed[i] == list[i]);
            }
        }
    }
    sorting_keeps(pushed, sorted);
    assert forall|n: NodeView| #[trigger] sorted.contains(n) <==> list.contains(n) || n == node by {
        assert(pushed.contains(n) <==> sorted.contains(n));
        if list.contains(n) {
            let k = choose|k: int| 0 <= k < list.len() && list[k] == n;
            assert(pushed[k] == n);
        }
        if pushed.contains(n) {
            let k = choose|k: int| 0 <= k < pushed.len() && pushed[k] == n;
            if k < list.len() {
                assert(list[k] == n);
            }
        }
        assert(pushed[list.len() as int] == node);
    }
}

/// Taking a path out leaves the entries of all other paths.
pub proof fn without_path_holds(list: Seq<NodeView>, path: Seq<PartView>)
    requires
        list_wf(list),
    ensures
        list_wf(without_path(list, path)),
        forall|n: NodeView| #[trigger]
            without_path(list, path).contains(n) <==> list.contains(n) && n.path != path,
        !holds(list, path) ==> without_path(list, path) == list,
{
    filtered_stays_wf(list, path);
    let keep = |node: NodeView| node.path != path;
    broadcast use vstd::seq_lib::group_filter_ensures;

    assert forall|n: NodeView| #[trigger] without_path(list, path).contains(n) <==> list.contains(n)
        && n.path != path by {
        if list.contains(n) && n.path != path {
            let k = choose|k: int| 0 <= k < list.len() && list[k] == n;
            assert(keep(list[k]));
        }
    }
    if !holds(list, path) {
        filter_all(list, path);
    }
}

proof fn filter_all(list: Seq<NodeView>, path: Seq<PartView>)
    requires
        !holds(list, path),
    ensures
        without_path(list, path) == list,
    decreases list.len(),
{
    reveal(Seq::filter);
    if list.len() > 0 {
        assert(list[list.len() - 1].path != path);
        assert(!holds(list.drop_last(), path)) by {
            assert forall|i: int| 0 <= i < list.drop_last().len() implies (
            #[trigger] list.drop_last()[i]).path != path by {
                assert(list[i].path != path);
            }
        }
        filter_all(list.drop_last(), path);
        assert(list.drop_last().push(list.last()) =~= list);
    } else {
        assert(without_path(list, path) =~= list);
    }
}

/// Another size for a path leaves the entries of all other paths.
pub proof fn with_size_holds(list: Seq<NodeView>, path: Seq<PartView>, size: nat)
    requires
        list_wf(list),
    ensures
        list_wf(with_size(list, path, size)),
        forall|n: NodeView| #[trigger]
            with_size(list, path, size).contains(n) <==> (list.contains(n) && n.path != path) || (
            n.path == path && exists|k: int|
                0 <= k < list.len() && n == (NodeView { size, ..#[trigger] list[k] })),
        !holds(list, path) ==> with_size(list, path, size) == list,
{
    let next = with_size(list, path, size);
    assert forall|k: int| 0 <= k < list.len() implies sort_key(#[trigger] next[k]) == sort_key(
        list[k],
    ) && next[k].path == list[k].path by {}
    assert forall|n: NodeView| #[trigger] next.contains(n) <==> (list.contains(n) && n.path != path)
        || (n.path == path && exists|k: int|
        0 <= k < list.len() && n == (NodeView { size, ..#[trigger] list[k] })) by {
        if next.contains(n) {
            let k = choose|k: int| 0 <= k < next.len() && next[k] == n;
            assert(next[k] == n);
            if list[k].path == path {
                assert(n == (NodeView { size, ..list[k] }));
            } else {
                assert(list[k] == n);
            }
        }
        if list.contains(n) && n.path != path {
            let k = choose|k: int| 0 <= k < list.len() && list[k] == n;
            assert(next[k] == n);
        }
        if n.path == path && exists|k: int|
            0 <= k < list.len() && n == (NodeView { size, ..#[trigger] list[k] }) {
            let k = choose|k: int|
                0 <= k < list.len() && n == (NodeView { size, ..#[trigger] list[k] });
            assert(next[k] == n);
        }
    }
    if !holds(list, path) {
        assert(next =~= list);
    }
}

/// Whether one of the entries has the given path.
pub fn has_path(list: &Vec<Node>, path: &FsPath) -> (found: bool)
    ensures
        found == holds(nodes_view(list@), path@),
{
    let mut i: usize = 0;
    while i < list.len()
        invariant
            i <= list@.len(),
            forall|k: int| 0 <= k < i ==> (#[trigger] nodes_view(list@)[k]).path != path@,
        decreases list@.len() - i,
    {
        if list[i].path.same(path) {
            assert(nodes_view(list@)[i as int].path == path@);
            return true;
        }
        i += 1;
    }
    false
}

/// Adds an entry, unless an entry with its path is there already. Gives back whether it was added.
pub fn add_node(list: &mut Vec<Node>, node: Node) -> (added: bool)
    requires
        list_wf(nodes_view(old(list)@)),
    ensures
        added == !holds(nodes_view(old(list)@), node@.path),
        nodes_view(final(list)@) == with_node(nodes_view(old(list)@), node@),
        list_wf(nodes_view(final(list)@)),
{
    if has_path(list, &node.path) {
        return false;
    }
    let ghost before = nodes_view(list@);
    list.push(node);
    let ghost pushed = nodes_view(list@);
    assert(pushed =~= before.push(node@));
    sort_children(list);
    proof {
        sorted_is_sorted_children(pushed, nodes_view(list@));
        assert(distinct_entries(pushed)) by {
            assert forall|i: int, j: int| 0 <= i < j < pushed.len() implies (
            #[trigger] pushed[i]).path != (#[trigger] pushed[j]).path by {
                if j < before.len() {
                    assert(before[i].path != before[j].path);
                } else {
                    assert(pushed[i] == before[i]);
                }
            }
        }
        sorting_keeps(pushed, nodes_view(list@));
    }
    true
}

/// Takes the entry of the given path out.
pub fn drop_path(list: &mut Vec<Node>, path: &FsPath)
    requires
        list_wf(nodes_view(old(list)@)),
    ensures
        nodes_view(final(list)@) == without_path(nodes_view(old(list)@), path@),
        list_wf(nodes_view(final(list)@)),
{
    let ghost all = nodes_view(list@);
    let ghost keep = |node: NodeView| node.path != path@;
    let ghost mut seen: int = 0;
    let mut i: usize = 0;
    assert(all.take(0).filter(keep) =~= Seq::<NodeView>::empty()) by {
        reveal(Seq::filter);
    }
    while i < list.len()
        invariant
            0 <= i <= list@.len(),
            0 <= seen <= all.len(),
            keep == (|node: NodeView| node.path != path@),
            list@.len() - i == all.len() - seen,
            nodes_view(list@).take(i as int) == all.take(seen).filter(keep),
            nodes_view(list@).skip(i as int) == all.skip(seen),
        decreases list@.len() - i,
    {
        let ghost now = nodes_view(list@);
        proof {
            reveal(Seq::filter);
            assert(all.take(seen + 1).drop_last() =~= all.take(seen));
            assert(now.skip(i as int)[0] == all.skip(seen)[0]);
            assert(all.take(seen + 1).last() == now[i as int]);
            assert(all.skip(seen + 1) =~= all.skip(seen).drop_first());
        }
        if list[i].path.same(path) {
            let _ = list.remove(i);
            assert(nodes_view(list@) =~= now.remove(i as int));
            assert(nodes_view(list@).take(i as int) =~= now.take(i as int));
            assert(nodes_view(list@).skip(i as int) =~= now.skip(i as int).drop_first());
        } else {
            i += 1;
            assert(now.take(i as int) =~= now.take(i - 1).push(now[i - 1]));
            assert(now.skip(i as int) =~= now.skip(i - 1).drop_first());
        }
        proof {
            seen = seen + 1;
        }
    }
    assert(all.take(seen) =~= all);
    assert(nodes_view(list@).take(i as int) =~= nodes_view(list@));
    proof {
        filtered_stays_wf(all, path@);
    }
}

/// Taking entries out leaves a list that the tree can hold.
proof fn filtered_stays_wf(list: Seq<NodeView>, path: Seq<PartView>)
    requires
        list_wf(list),
    ensures
        list_wf(without_path(list, path)),
        forall|k: int|
            0 <= k < without_path(list, path).len() ==> list.contains(
                #[trigger] without_path(list, path)[k],
            ),
    decreases list.len(),
{
    reveal(Seq::filter);
    if list.len() > 0 {
        let rest = list.drop_last();
        let kept = without_path(rest, path);
        filtered_stays_wf(rest, path);
        assert forall|k: int| 0 <= k < kept.len() implies rest.contains(#[trigger] kept[k])
            && !key_less(sort_key(list.last()), sort_key(kept[k])) && kept[k].path
            != list.last().path by {
            let x = choose|x: int| 0 <= x < rest.len() && rest[x] == kept[k];
            assert(list[x] == kept[k]);
            assert(list[list.len() - 1] == list.last());
        }
        assert forall|k: int| 0 <= k < without_path(list, path).len() implies list.contains(
            #[trigger] without_path(list, path)[k],
        ) by {
            if k < kept.len() {
                let x = choose|x: int| 0 <= x < rest.len() && rest[x] == kept[k];
                assert(list[x] == kept[k]);
            } else {
                assert(list[list.len() - 1] == list.last());
            }
        }
    }
}

/// Gives the entry of the given path another size.
pub fn set_size(list: &mut Vec<Node>, path: &FsPath, size: u64)
    requires
        list_wf(nodes_view(old(list)@)),
    ensures
        nodes_view(final(list)@) == with_size(nodes_view(old(list)@), path@, size as nat),
        list_wf(nodes_view(final(list)@)),
{
    let ghost all = nodes_view(list@);
    let mut i: usize = 0;
    while i < list.len()
        invariant
            i <= list@.len(),
            nodes_view(list@) == all,
            all == nodes_view(old(list)@),
            list_wf(all),
            forall|k: int| 0 <= k < i ==> (#[trigger] all[k]).path != path@,
        decreases list@.len() - i,
    {
        if list[i].path.same(path) {
            let mut node = list.remove(i);
            node.size = size;
            list.insert(i, node);
            assert(all[i as int].path == path@);
            assert(nodes_view(list@) =~= with_size(all, path@, size as nat));
            assert forall|k: int| 0 <= k < all.len() implies sort_key(
                #[trigger] nodes_view(list@)[k],
            ) == sort_key(all[k]) by {}
            return;
        }
        i += 1;
    }
    assert(nodes_view(list@) =~= with_size(all, path@, size as nat));
}

} // verus!
