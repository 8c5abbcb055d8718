//! What it means that the entries of a directory are in order.
use vstd::prelude::*;
use vstd::utf8::encode_utf8;

use crate::children::{is_sorted, list_wf};
use crate::explorer::AppView;
use crate::order::{
    arranged, bytes_less, is_sorting, key_less, keys_with, lowercase, precedes, sort_keys,
    sorted_from,
};
use crate::path::PartView;
use crate::tree::NodeView;

verus! {

/// Whether `x` is `y`, or `x` ends where `y` goes on, or `x` has the smaller byte where the two
/// first differ.
pub open spec fn not_behind(x: Seq<u8>, y: Seq<u8>) -> bool {
    x == y || exists|k: int|
        0 <= k <= x.len() && k < y.len() && #[trigger] x.take(k) == y.take(k) && (k == x.len()
            || x[k] < y[k])
}

/// A smaller byte string is smaller where the two first differ.
proof fn smaller_where_different(x: Seq<u8>, y: Seq<u8>) -> (k: int)
    requires
        bytes_less(x, y),
    ensures
        0 <= k <= x.len(),
        k < y.len(),
        x.take(k) == y.take(k),
        k == x.len() || x[k] < y[k],
    decreases x.len(),
{
    if x.len() == 0 || x[0] < y[0] {
        assert(x.take(0) =~= y.take(0));
        0
    } else {
        let k = smaller_where_different(x.drop_first(), y.drop_first());
        assert(x.take(k + 1) =~= seq![x[0]] + x.drop_first().take(k));
        assert(y.take(k + 1) =~= seq![y[0]] + y.drop_first().take(k));
        k + 1
    }
}

/// Two byte strings of which none is smaller are the same.
proof fn alike_is_same(x: Seq<u8>, y: Seq<u8>)
    requires
        !bytes_less(x, y),
        !bytes_less(y, x),
    ensures
        x == y,
    decreases x.len(),
{
    if x.len() > 0 && y.len() > 0 {
        alike_is_same(x.drop_first(), y.drop_first());
        assert(x =~= seq![x[0]] + x.drop_first());
        assert(y =~= seq![y[0]] + y.drop_first());
    } else {
        assert(x =~= y);
    }
}

/// A byte string that is not smaller than another is not before it.
proof fn not_smaller(x: Seq<u8>, y: Seq<u8>)
    requires
        !bytes_less(y, x),
    ensures
        not_behind(x, y),
{
    if bytes_less(x, y) {
        let k = smaller_where_different(x, y);
        assert(x.take(k) == y.take(k));
    } else {
        alike_is_same(x, y);
    }
}

/// A byte string is not smaller than itself.
proof fn not_smaller_than_itself(x: Seq<u8>)
    ensures
        !bytes_less(x, x),
    decreases x.len(),
{
    if x.len() > 0 {
        not_smaller_than_itself(x.drop_first());
    }
}

/// Sorting by lower-case names: `from` says where each entry came from. Each entry is kept, once.
/// Directories stand before files. Of two entries of the same kind the one whose lower-case name
/// comes first, byte by byte, stands first; those with the same lower-case name keep their order.
pub proof fn sorted_by_lower_names(
    before: Seq<NodeView>,
    after: Seq<NodeView>,
    lower: Seq<Seq<char>>,
) -> (from: Seq<int>)
    requires
        lower.len() == before.len(),
        sorted_from(before, after, keys_with(before, lower)),
    ensures
        after.len() == before.len(),
        from.len() == before.len(),
        forall|i: int|
            0 <= i < from.len() ==> 0 <= #[trigger] from[i] < before.len() && after[i]
                == before[from[i]],
        forall|i: int, j: int| 0 <= i < j < from.len() ==> #[trigger] from[i] != #[trigger] from[j],
        forall|i: int, j: int|
            0 <= i < j < from.len() ==> (#[trigger] after[i]).is_dir || !(#[trigger] after[j]).is_dir,
        forall|i: int, j: int|
            0 <= i < j < from.len() && (#[trigger] after[i]).is_dir == (#[trigger] after[j]).is_dir
                ==> not_behind(encode_utf8(lower[from[i]]), encode_utf8(lower[from[j]])),
        forall|i: int, j: int|
            0 <= i < j < from.len() && (#[trigger] after[i]).is_dir == (#[trigger] after[j]).is_dir
                && encode_utf8(lower[from[i]]) == encode_utf8(lower[from[j]]) ==> from[i] < from[j],
{
    let keys = keys_with(before, lower);
    let from = choose|order: Seq<int>| #[trigger]
        is_sorting(keys, order) && after == arranged(before, order);
    assert forall|i: int, j: int| 0 <= i < j < from.len() implies {
        &&& (#[trigger] after[i]).is_dir || !(#[trigger] after[j]).is_dir
        &&& after[i].is_dir == after[j].is_dir ==> not_behind(
            encode_utf8(lower[from[i]]),
            encode_utf8(lower[from[j]]),
        )
        &&& after[i].is_dir == after[j].is_dir && encode_utf8(lower[from[i]]) == encode_utf8(
            lower[from[j]],
        ) ==> from[i] < from[j]
    } by {
        let x = encode_utf8(lower[from[i]]);
        let y = encode_utf8(lower[from[j]]);
        assert(precedes(keys, from[i], from[j]));
        crate::order::key_less_asymmetric(keys[from[i]], keys[from[j]]);
        if after[i].is_dir == after[j].is_dir {
            assert(!bytes_less(y, x));
            not_smaller(x, y);
            not_smaller_than_itself(x);
        }
    }
    from
}

/// What sorting the entries of a directory gives: see [`sorted_by_lower_names`], the lower-case
/// names being those of the whole names.
pub proof fn sorted_by_names(before: Seq<NodeView>, after: Seq<NodeView>) -> (from: Seq<int>)
    requires
        sorted_from(before, after, sort_keys(before)),
    ensures
        after.len() == before.len(),
        from.len() == before.len(),
        forall|i: int|
            0 <= i < from.len() ==> 0 <= #[trigger] from[i] < before.len() && after[i]
                == before[from[i]],
        forall|i: int, j: int| 0 <= i < j < from.len() ==> #[trigger] from[i] != #[trigger] from[j],
        forall|i: int, j: int|
            0 <= i < j < from.len() ==> (#[trigger] after[i]).is_dir || !(#[trigger] after[j]).is_dir,
        forall|i: int, j: int|
            0 <= i < j < from.len() && (#[trigger] after[i]).is_dir == (#[trigger] after[j]).is_dir
                ==> not_behind(
                encode_utf8(lowercase(after[i].name)),
                encode_utf8(lowercase(after[j].name)),
            ),
        forall|i: int, j: int|
            0 <= i < j < from.len() && (#[trigger] after[i]).is_dir == (#[trigger] after[j]).is_dir
                && encode_utf8(lowercase(after[i].name)) == encode_utf8(lowercase(after[j].name))
                ==> from[i] < from[j],
{
    let lower = Seq::new(before.len(), |i: int| lowercase(before[i].name));
    assert(sort_keys(before) =~= keys_with(before, lower));
    let from = sorted_by_lower_names(before, after, lower);
    assert forall|i: int| 0 <= i < from.len() implies lower[#[trigger] from[i]] == lowercase(
        after[i].name,
    ) by {}
    from
}

/// Each list that the explorer holds is in that order, and has no path twice.
pub proof fn lists_go_by_name(app: AppView, dir: Seq<PartView>)
    requires
        app.wf(),
        app.cache.dom().contains(dir),
    ensures
        ({
            let list = app.cache[dir];
            forall|i: int, j: int|
                0 <= i < j < list.len() ==> {
                    &&& (#[trigger] list[i]).path != (#[trigger] list[j]).path
                    &&& list[i].is_dir || !list[j].is_dir
                    &&& list[i].is_dir == list[j].is_dir ==> not_behind(
                        encode_utf8(lowercase(list[i].name)),
                        encode_utf8(lowercase(list[j].name)),
                    )
                }
        }),
{
    let list = app.cache[dir];
    assert(list_wf(list));
    assert forall|i: int, j: int| 0 <= i < j < list.len() implies {
        &&& (#[trigger] list[i]).path != (#[trigger] list[j]).path
        &&& list[i].is_dir || !list[j].is_dir
        &&& list[i].is_dir == list[j].is_dir ==> not_behind(
            encode_utf8(lowercase(list[i].name)),
            encode_utf8(lowercase(list[j].name)),
        )
    } by {
        assert(is_sorted(list));
        let a = crate::order::sort_key(list[i]);
        let b = crate::order::sort_key(list[j]);
        assert(!key_less(b, a));
        if list[i].is_dir == list[j].is_dir {
            not_smaller(a.bytes, b.bytes);
        }
    }
}

} // verus!
