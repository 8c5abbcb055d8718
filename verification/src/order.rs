//! The order of the entries of a directory: directories first, then by name without regard to
//! case.
use vstd::prelude::*;
use vstd::utf8::encode_utf8;

use crate::tree::{nodes_view, Node, NodeView};

verus! {

/// The lower-case form of a text.
pub uninterp spec fn lowercase(text: Seq<char>) -> Seq<char>;

/// Calls `str::to_lowercase`. The contract names its result: what the lower-case form of a given
/// text is, no clause says.
#[verifier::external_body]
fn to_lowercase(text: &str) -> (lower: String)
    ensures
        lower@ == lowercase(text@),
{
    text.to_lowercase()
}

/// What an entry is ordered by.
pub struct KeyView {
    pub is_dir: bool,
    pub bytes: Seq<u8>,
}

/// Whether `a` comes before `b` in the lexicographic order of byte strings.
pub open spec fn bytes_less(a: Seq<u8>, b: Seq<u8>) -> bool
    decreases a.len(),
{
    b.len() > 0 && (a.len() == 0 || a[0] < b[0] || (a[0] == b[0] && bytes_less(
        a.drop_first(),
        b.drop_first(),
    )))
}

/// Whether an entry with key `a` belongs before one with key `b`.
pub open spec fn key_less(a: KeyView, b: KeyView) -> bool {
    (a.is_dir && !b.is_dir) || (a.is_dir == b.is_dir && bytes_less(a.bytes, b.bytes))
}

/// The key of an entry whose lower-case name is `lower`.
pub open spec fn key_with(node: NodeView, lower: Seq<char>) -> KeyView {
    KeyView { is_dir: node.is_dir, bytes: encode_utf8(lower) }
}

/// The key of an entry.
pub open spec fn sort_key(node: NodeView) -> KeyView {
    key_with(node, lowercase(node.name))
}

/// The keys of a list of entries.
pub open spec fn sort_keys(nodes: Seq<NodeView>) -> Seq<KeyView> {
    Seq::new(nodes.len(), |i: int| sort_key(nodes[i]))
}

/// The keys of a list of entries whose lower-case names are given.
pub open spec fn keys_with(nodes: Seq<NodeView>, lower: Seq<Seq<char>>) -> Seq<KeyView> {
    Seq::new(nodes.len(), |i: int| key_with(nodes[i], lower[i]))
}

/// Whether `order` holds each of the positions below `n` once.
pub open spec fn is_order(order: Seq<int>, n: nat) -> bool {
    &&& order.len() == n
    &&& forall|i: int| 0 <= i < n ==> 0 <= #[trigger] order[i] < n
    &&& forall|i: int, j: int| 0 <= i < j < n ==> #[trigger] order[i] != #[trigger] order[j]
}

/// Whether the entry at position `a` belongs before the one at position `b`: its key is the
/// smaller one, or their keys are alike and it came first.
pub open spec fn precedes(keys: Seq<KeyView>, a: int, b: int) -> bool {
    key_less(keys[a], keys[b]) || (!key_less(keys[b], keys[a]) && a < b)
}

/// Whether `order` lists the positions of `keys` in sorted order, alike keys in their old order.
pub open spec fn is_sorting(keys: Seq<KeyView>, order: Seq<int>) -> bool {
    &&& is_order(order, keys.len())
    &&& forall|i: int, j: int|
        0 <= i < j < keys.len() ==> precedes(keys, #[trigger] order[i], #[trigger] order[j])
}

/// The elements of `s` in the given order.
pub open spec fn arranged<A>(s: Seq<A>, order: Seq<int>) -> Seq<A> {
    Seq::new(order.len(), |i: int| s[order[i]])
}

/// Whether `after` is `before`, stably sorted by `keys`.
pub open spec fn sorted_from<A>(before: Seq<A>, after: Seq<A>, keys: Seq<KeyView>) -> bool {
    exists|order: Seq<int>| #[trigger] is_sorting(keys, order) && after == arranged(before, order)
}

/// "Not before" carries over.
proof fn bytes_less_transitive(a: Seq<u8>, b: Seq<u8>, c: Seq<u8>)
    requires
        !bytes_less(b, a),
        !bytes_less(c, b),
    ensures
        !bytes_less(c, a),
    decreases a.len(),
{
    if a.len() > 0 && b.len() > 0 && c.len() > 0 {
        if a[0] == b[0] && b[0] == c[0] {
            bytes_less_transitive(a.drop_first(), b.drop_first(), c.drop_first());
        }
    }
}

/// Of two byte strings at most one comes before the other.
proof fn bytes_less_asymmetric(a: Seq<u8>, b: Seq<u8>)
    ensures
        !(bytes_less(a, b) && bytes_less(b, a)),
    decreases a.len(),
{
    if a.len() > 0 && b.len() > 0 {
        bytes_less_asymmetric(a.drop_first(), b.drop_first());
    }
}

/// "Not before" carries over.
proof fn key_less_transitive(a: KeyView, b: KeyView, c: KeyView)
    requires
        !key_less(b, a),
        !key_less(c, b),
    ensures
        !key_less(c, a),
{
    if a.is_dir == b.is_dir && b.is_dir == c.is_dir {
        bytes_less_transitive(a.bytes, b.bytes, c.bytes);
    }
}

/// Of two keys at most one is smaller than the other.
pub proof fn key_less_asymmetric(a: KeyView, b: KeyView)
    ensures
        !(key_less(a, b) && key_less(b, a)),
{
    bytes_less_asymmetric(a.bytes, b.bytes);
}

/// An order holds every position.
pub proof fn order_is_onto(order: Seq<int>, n: nat, x: int) -> (i: int)
    requires
        is_order(order, n),
        0 <= x < n,
    ensures
        0 <= i < n,
        order[i] == x,
{
    let all = Set::new(|v: int| 0 <= v < n);
    let used = order.to_set();
    vstd::set_lib::lemma_int_range(0, n as int);
    assert(all =~= vstd::set_lib::set_int_range(0, n as int));
    assert(order.no_duplicates());
    order.unique_seq_to_set();
    assert(used.subset_of(all));
    vstd::set_lib::lemma_subset_equality(used, all);
    assert(used.contains(x));
    choose|i: int| 0 <= i < order.len() && order[i] == x
}

/// A list can be stably sorted in one way only.
pub proof fn sorting_is_unique<A>(before: Seq<A>, one: Seq<A>, two: Seq<A>, keys: Seq<KeyView>)
    requires
        keys.len() == before.len(),
        sorted_from(before, one, keys),
        sorted_from(before, two, keys),
    ensures
        one == two,
{
    let p = choose|order: Seq<int>| #[trigger]
        is_sorting(keys, order) && one == arranged(before, order);
    let q = choose|order: Seq<int>| #[trigger]
        is_sorting(keys, order) && two == arranged(before, order);
    assert forall|i: int| 0 <= i < keys.len() implies p[i] == q[i] by {
        sortings_agree(keys, p, q, i);
    }
    assert(one =~= two);
}

proof fn sortings_agree(keys: Seq<KeyView>, p: Seq<int>, q: Seq<int>, i: int)
    requires
        is_sorting(keys, p),
        is_sorting(keys, q),
        0 <= i < keys.len(),
    ensures
        p[i] == q[i],
    decreases i,
{
    let n = keys.len();
    let a = p[i];
    let b = q[i];
    let at_q = order_is_onto(q, n, a);
    let at_p = order_is_onto(p, n, b);
    if at_q < i {
        sortings_agree(keys, p, q, at_q);
        assert(p[at_q] == p[i]);
    }
    if at_p < i {
        sortings_agree(keys, p, q, at_p);
        assert(q[at_p] == q[i]);
    }
    if a != b {
        assert(at_q > i && at_p > i);
        assert(precedes(keys, q[i], q[at_q]));
        assert(precedes(keys, p[i], p[at_p]));
        bytes_less_asymmetric(keys[a].bytes, keys[b].bytes);
    }
}

/// Stable sorting leaves a list that is sorted already as it is.
pub proof fn sorted_stays<A>(list: Seq<A>, keys: Seq<KeyView>)
    requires
        keys.len() == list.len(),
        forall|i: int, j: int|
            0 <= i < j < keys.len() ==> !key_less(#[trigger] keys[j], #[trigger] keys[i]),
    ensures
        sorted_from(list, list, keys),
{
    let order = Seq::new(keys.len(), |i: int| i);
    assert(is_sorting(keys, order));
    assert(arranged(list, order) =~= list);
}

/// What an entry is ordered by.
struct Key {
    is_dir: bool,
    lower: String,
}

impl Key {
    spec fn view(&self) -> KeyView {
        KeyView { is_dir: self.is_dir, bytes: encode_utf8(self.lower@) }
    }

    /// Whether this key is smaller than `other`.
    fn less(&self, other: &Key) -> (less: bool)
        ensures
            less == key_less(self.view(), other.view()),
    {
        if self.is_dir != other.is_dir {
            return self.is_dir;
        }
        let a = self.lower.as_str().as_bytes();
        let b = other.lower.as_str().as_bytes();
        let mut i: usize = 0;
        assert(a@.skip(0) =~= a@);
        assert(b@.skip(0) =~= b@);
        while i < a.len() && i < b.len() && a[i] == b[i]
            invariant
                i <= a.len(),
                i <= b.len(),
                bytes_less(a@, b@) == bytes_less(a@.skip(i as int), b@.skip(i as int)),
            decreases a.len() - i,
        {
            assert(a@.skip(i as int).drop_first() =~= a@.skip(i + 1));
            assert(b@.skip(i as int).drop_first() =~= b@.skip(i + 1));
            i += 1;
        }
        i < b.len() && (i == a.len() || a[i] < b[i])
    }
}

/// Taking the last of `m + 1` sorted positions to where it belongs sorts them all.
proof fn insertion_sorts(keys: Seq<KeyView>, order: Seq<int>, m: int, j: int)
    requires
        is_order(order, keys.len()),
        0 <= j <= m < keys.len(),
        forall|a: int, b: int|
            0 <= a < b < m ==> precedes(keys, #[trigger] order[a], #[trigger] order[b]),
        forall|a: int| m <= a < keys.len() ==> #[trigger] order[a] == a,
        forall|a: int| 0 <= a < m ==> #[trigger] order[a] < m,
        forall|a: int| j <= a < m ==> key_less(keys[m], keys[#[trigger] order[a]]),
        j > 0 ==> !key_less(keys[m], keys[order[j - 1]]),
    ensures
        is_order(order.remove(m).insert(j, m), keys.len()),
        forall|a: int, b: int|
            #![trigger order.remove(m).insert(j, m)[a], order.remove(m).insert(j, m)[b]]
            0 <= a < b < m + 1 ==> precedes(
                keys,
                order.remove(m).insert(j, m)[a],
                order.remove(m).insert(j, m)[b],
            ),
        forall|a: int|
            m < a < keys.len() ==> #[trigger] order.remove(m).insert(j, m)[a] == a,
        forall|a: int|
            0 <= a < m + 1 ==> #[trigger] order.remove(m).insert(j, m)[a] < m + 1,
{
    let next = order.remove(m).insert(j, m);
    let n = keys.len();
    assert forall|a: int| 0 <= a < n implies #[trigger] next[a] == (if a < j {
        order[a]
    } else if a == j {
        m
    } else if a <= m {
        order[a - 1]
    } else {
        a
    }) by {}
    assert forall|a: int| 0 <= a < j implies !key_less(keys[m], keys[#[trigger] order[a]]) by {
        if a < j - 1 {
            assert(precedes(keys, order[a], order[j - 1]));
            bytes_less_asymmetric(keys[order[a]].bytes, keys[order[j - 1]].bytes);
            key_less_transitive(keys[order[a]], keys[order[j - 1]], keys[m]);
        }
    }
    assert forall|a: int, b: int| 0 <= a < b < m + 1 implies precedes(
        keys,
        #[trigger] next[a],
        #[trigger] next[b],
    ) by {
        let p = if a <= j { a } else { a - 1 };
        let q = if b <= j { b } else { b - 1 };
        if a != j && b != j {
            assert(next[a] == order[p] && next[b] == order[q]);
            assert(precedes(keys, order[p], order[q]));
        } else if b == j {
            assert(next[a] == order[a]);
        } else {
            assert(next[b] == order[b - 1]);
        }
    }
    assert forall|a: int, b: int| 0 <= a < b < n implies #[trigger] next[a] != #[trigger] next[b] by {
        let p = if a < j { a } else if a == j { m } else if a <= m { a - 1 } else { a };
        let q = if b < j { b } else if b == j { m } else if b <= m { b - 1 } else { b };
        assert(next[a] == order[p] && next[b] == order[q]);
        assert(p != q);
    }
}

/// Where the entry at position `m` belongs among those before it, which are sorted.
proof fn insertion_point(keys: Seq<KeyView>, order: Seq<int>, m: int, j: int) -> (at: int)
    requires
        0 <= j <= m,
        forall|a: int| j <= a < m ==> key_less(keys[m], keys[#[trigger] order[a]]),
    ensures
        0 <= at <= m,
        forall|a: int| at <= a < m ==> key_less(keys[m], keys[#[trigger] order[a]]),
        at > 0 ==> !key_less(keys[m], keys[order[at - 1]]),
    decreases j,
{
    if j > 0 && key_less(keys[m], keys[order[j - 1]]) {
        insertion_point(keys, order, m, j - 1)
    } else {
        j
    }
}

/// The first `m` entries can be sorted.
proof fn leading_sorting(keys: Seq<KeyView>, m: int) -> (order: Seq<int>)
    requires
        0 <= m <= keys.len(),
    ensures
        is_order(order, keys.len()),
        forall|a: int, b: int|
            0 <= a < b < m ==> precedes(keys, #[trigger] order[a], #[trigger] order[b]),
        forall|a: int| m <= a < keys.len() ==> #[trigger] order[a] == a,
        forall|a: int| 0 <= a < m ==> #[trigger] order[a] < m,
    decreases m,
{
    if m == 0 {
        Seq::new(keys.len(), |i: int| i)
    } else {
        let order = leading_sorting(keys, m - 1);
        let at = insertion_point(keys, order, m - 1, m - 1);
        insertion_sorts(keys, order, m - 1, at);
        order.remove(m - 1).insert(at, m - 1)
    }
}

/// Any list can be stably sorted.
pub proof fn sorting_exists(keys: Seq<KeyView>) -> (order: Seq<int>)
    ensures
        is_sorting(keys, order),
{
    leading_sorting(keys, keys.len() as int)
}

/// Stably sorts `children`, whose lower-case names are `lower`.
pub fn sort_children_by(children: &mut Vec<Node>, lower: Vec<String>)
    requires
        lower@.len() == old(children)@.len(),
    ensures
        sorted_from(
            nodes_view(old(children)@),
            nodes_view(final(children)@),
            keys_with(
                nodes_view(old(children)@),
                Seq::new(lower@.len(), |i: int| lower@[i]@),
            ),
        ),
{
    let ghost start = children@;
    let ghost names = Seq::new(lower@.len(), |i: int| lower@[i]@);
    let ghost all = keys_with(nodes_view(start), names);
    let n: usize = children.len();
    let mut keys: Vec<Key> = Vec::new();
    let mut k: usize = 0;
    while k < n
        invariant
            k <= n,
            children@ == start,
            n == start.len(),
            lower@.len() == n,
            names == Seq::new(lower@.len(), |i: int| lower@[i]@),
            all == keys_with(nodes_view(start), names),
            keys@.len() == k,
            forall|i: int| 0 <= i < k ==> (#[trigger] keys@[i]).view() == all[i],
        decreases n - k,
    {
        keys.push(Key { is_dir: children[k].is_dir, lower: lower[k].clone() });
        k += 1;
    }
    let ghost mut order = Seq::new(n as nat, |i: int| i);
    let mut m: usize = 0;
    while m < n
        invariant
            m <= n,
            n == start.len(),
            all.len() == n,
            children@.len() == n,
            keys@.len() == n,
            is_order(order, n as nat),
            forall|i: int| 0 <= i < n ==> #[trigger] children@[i] == start[order[i]],
            forall|i: int| 0 <= i < n ==> (#[trigger] keys@[i]).view() == all[order[i]],
            forall|a: int, b: int|
                0 <= a < b < m ==> precedes(all, #[trigger] order[a], #[trigger] order[b]),
            forall|a: int| m <= a < n ==> #[trigger] order[a] == a,
            forall|a: int| 0 <= a < m ==> #[trigger] order[a] < m,
        decreases n - m,
    {
        let mut j: usize = m;
        while j > 0 && keys[m].less(&keys[j - 1])
            invariant
                j <= m < n,
                n == start.len(),
                all.len() == n,
                keys@.len() == n,
                order.len() == n,
                order[m as int] == m,
                forall|i: int| 0 <= i < n ==> (#[trigger] keys@[i]).view() == all[order[i]],
                forall|a: int| j <= a < m ==> key_less(all[m as int], all[#[trigger] order[a]]),
            decreases j,
        {
            j -= 1;
        }
        proof {
            insertion_sorts(all, order, m as int, j as int);
        }
        if j < m {
            let node = children.remove(m);
            children.insert(j, node);
            let key = keys.remove(m);
            keys.insert(j, key);
        } else {
            assert(order.remove(m as int).insert(j as int, m as int) =~= order);
        }
        proof {
            order = order.remove(m as int).insert(j as int, m as int);
        }
        m += 1;
    }
    assert(is_sorting(all, order));
    assert(nodes_view(children@) =~= arranged(nodes_view(start), order));
}

/// Sorts the entries of a directory: directories before files, each by lower-case name, entries
/// that are alike in their old order.
pub fn sort_children(children: &mut Vec<Node>)
    ensures
        sorted_from(
            nodes_view(old(children)@),
            nodes_view(final(children)@),
            sort_keys(nodes_view(old(children)@)),
        ),
{
    let mut lower: Vec<String> = Vec::new();
    let mut i: usize = 0;
    while i < children.len()
        invariant
            i <= children@.len(),
            lower@.len() == i,
            forall|k: int| 0 <= k < i ==> (#[trigger] lower@[k])@ == lowercase(children@[k].name@),
        decreases children@.len() - i,
    {
        lower.push(to_lowercase(children[i].name.as_str()));
        i += 1;
    }
    let ghost nodes = nodes_view(children@);
    assert(keys_with(nodes, Seq::new(lower@.len(), |k: int| lower@[k]@)) =~= sort_keys(nodes));
    sort_children_by(children, lower);
}

} // verus!
