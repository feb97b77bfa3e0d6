//! The mathematical model of the tree: the map it represents, the in-order
//! key traversal, the key-count of every node, and the depth of every leaf,
//! together with the well-formedness predicate that every public operation
//! preserves.
use vstd::prelude::*;
use crate::b_tree::Node;

verus! {

/// `k` lies strictly above the lower bound, when one is present.
pub(crate) open spec fn above(lo: Option<u64>, k: u64) -> bool {
    match lo {
        None => true,
        Some(l) => l < k,
    }
}

/// `k` lies strictly below the upper bound, when one is present.
pub(crate) open spec fn below(k: u64, hi: Option<u64>) -> bool {
    match hi {
        None => true,
        Some(h) => k < h,
    }
}

/// `k` lies strictly between the two bounds.
pub(crate) open spec fn within(lo: Option<u64>, hi: Option<u64>, k: u64) -> bool {
    above(lo, k) && below(k, hi)
}

/// The keys of `s` are strictly increasing.
pub(crate) open spec fn strictly_sorted(s: Seq<u64>) -> bool {
    forall|i: int, j: int| 0 <= i < j < s.len() ==> s[i] < s[j]
}

/// The least keys a non-root node may hold at rest.
pub(crate) open spec fn min_keys(order: nat) -> nat {
    (order / 2 - 1) as nat
}

/// The map holding `vs[i]` at `ks[i]` for every index.
pub(crate) open spec fn kv_map<V>(ks: Seq<u64>, vs: Seq<V>) -> Map<u64, V>
    decreases ks.len(),
{
    if ks.len() == 0 {
        Map::empty()
    } else {
        kv_map(ks.drop_last(), vs.drop_last()).insert(ks.last(), vs.last())
    }
}

/// The union of a sequence of maps; later maps win on shared keys.
pub(crate) open spec fn union_seq<V>(ms: Seq<Map<u64, V>>) -> Map<u64, V>
    decreases ms.len(),
{
    if ms.len() == 0 {
        Map::empty()
    } else {
        union_seq(ms.drop_last()).union_prefer_right(ms.last())
    }
}

/// The maps of the first `i` children of `n`, in order.
pub(crate) open spec fn child_maps<V>(n: Node<V>, i: int) -> Seq<Map<u64, V>>
    decreases n, 0int, i,
{
    if i <= 0 || i > n.children@.len() {
        Seq::empty()
    } else {
        child_maps(n, i - 1).push(node_map(n.children@[i - 1]))
    }
}

/// The key-value map of the subtree rooted at `n`.
pub(crate) open spec fn node_map<V>(n: Node<V>) -> Map<u64, V>
    decreases n, 1int, 0int,
{
    kv_map(n.keys@, n.values@).union_prefer_right(
        union_seq(child_maps(n, n.children@.len() as int)),
    )
}

/// The in-order traversal of the first `i` children of `n`, each followed by
/// the separator key that stands after it.
pub(crate) open spec fn traversal_prefix<V>(n: Node<V>, i: int) -> Seq<u64>
    decreases n, 0int, i,
{
    if i <= 0 || i > n.children@.len() {
        Seq::empty()
    } else {
        traversal_prefix(n, i - 1) + node_traversal(n.children@[i - 1]) + seq![n.keys@[i - 1]]
    }
}

/// The in-order traversal of all keys of the subtree rooted at `n`.
pub(crate) open spec fn node_traversal<V>(n: Node<V>) -> Seq<u64>
    decreases n, 1int, 0int,
{
    if n.children@.len() == 0 {
        n.keys@
    } else {
        traversal_prefix(n, n.keys@.len() as int) + node_traversal(
            n.children@[n.children@.len() - 1],
        )
    }
}

/// The key-counts of every node in the subtrees of the first `i` children.
pub(crate) open spec fn counts_prefix<V>(n: Node<V>, i: int) -> Seq<int>
    decreases n, 0int, i,
{
    if i <= 0 || i > n.children@.len() {
        Seq::empty()
    } else {
        counts_prefix(n, i - 1) + node_counts(n.children@[i - 1])
    }
}

/// The key-count of every node in the subtree rooted at `n`, this node first.
pub(crate) open spec fn node_counts<V>(n: Node<V>) -> Seq<int>
    decreases n, 1int, 0int,
{
    seq![n.keys@.len() as int] + counts_prefix(n, n.children@.len() as int)
}

/// The depths, counted in levels from `n`, of the leaves under the first `i`
/// children of `n`.
pub(crate) open spec fn depths_prefix<V>(n: Node<V>, i: int) -> Seq<nat>
    decreases n, 0int, i,
{
    if i <= 0 || i > n.children@.len() {
        Seq::empty()
    } else {
        depths_prefix(n, i - 1) + node_leaf_depths(n.children@[i - 1]).map_values(
            |d: nat| (d + 1) as nat,
        )
    }
}

/// The depth, counted in levels, of every leaf of the subtree rooted at `n`,
/// in traversal order; a tree of one leaf has the single depth 1.
pub(crate) open spec fn node_leaf_depths<V>(n: Node<V>) -> Seq<nat>
    decreases n, 1int, 0int,
{
    if n.children@.len() == 0 {
        seq![1nat]
    } else {
        depths_prefix(n, n.children@.len() as int)
    }
}

/// The shape of a well-formed subtree, with the key ordering left aside:
/// parallel key and value lists, leaf or one more child than keys, and every
/// child one level shorter than its parent. Enough to walk the tree level by
/// level.
pub(crate) open spec fn shaped<V>(n: Node<V>, order: nat) -> bool
    decreases n,
{
    &&& n.values@.len() == n.keys@.len()
    &&& n.keys@.len() >= 1
    &&& (n.children@.len() == 0 || n.children@.len() == n.keys@.len() + 1)
    &&& (forall|i: int|
        0 <= i < n.children@.len() ==> shaped(#[trigger] n.children@[i], order)
            && n.children@[i].height() + 1 == n.height())
}

/// The lower key bound of child `i`: the separator key before it, or the
/// node's own lower bound for the first child.
pub(crate) open spec fn child_lo(ks: Seq<u64>, lo: Option<u64>, i: int) -> Option<u64> {
    if i == 0 {
        lo
    } else {
        Some(ks[i - 1])
    }
}

/// The upper key bound of child `i`: the separator key after it, or the
/// node's own upper bound for the last child.
pub(crate) open spec fn child_hi(ks: Seq<u64>, hi: Option<u64>, i: int) -> Option<u64> {
    if i == ks.len() {
        hi
    } else {
        Some(ks[i])
    }
}

/// Well-formedness of the subtree rooted at `n`, except for `n`'s own upper
/// key-count bound, which the parent (or the tree) states: parallel key and
/// value lists, strictly sorted keys, all keys strictly within `(lo, hi)`,
/// leaf or exactly one more child than keys, every child well formed between
/// the neighbouring separators, within the fill bounds, and one level shorter
/// than this node.
pub(crate) open spec fn wf_sub<V>(n: Node<V>, order: nat, lo: Option<u64>, hi: Option<u64>) -> bool
    decreases n,
{
    &&& n.values@.len() == n.keys@.len()
    &&& n.keys@.len() >= 1
    &&& strictly_sorted(n.keys@)
    &&& (forall|i: int| 0 <= i < n.keys@.len() ==> within(lo, hi, #[trigger] n.keys@[i]))
    &&& (n.children@.len() == 0 || n.children@.len() == n.keys@.len() + 1)
    &&& (forall|i: int|
        0 <= i < n.children@.len() ==> {
            let c = #[trigger] n.children@[i];
            &&& wf_sub(c, order, child_lo(n.keys@, lo, i), child_hi(n.keys@, hi, i))
            &&& min_keys(order) <= c.keys@.len() <= order
            &&& c.height() + 1 == n.height()
        })
}

} // verus!
