//! A balanced multi-way search tree (a B-tree) keyed by `u64`: point
//! insertion and point lookup with logarithmic depth, every node within its
//! fill bounds, and all leaves at equal depth.
use vstd::prelude::*;
use crate::model::{
    child_hi, child_lo, child_maps, kv_map, min_keys, node_leaf_depths, node_map,
    node_traversal, node_counts, shaped, strictly_sorted, traversal_prefix, union_seq, wf_sub,
    within,
};
use crate::lemmas::{
    lemma_child_maps_index, lemma_kv_map_contains, lemma_kv_map_insert, lemma_leaf_node_map,
    lemma_node_map_at_key,
    lemma_node_map_child_insert, lemma_node_map_child_same, lemma_node_map_child_split,
    lemma_node_map_descend, lemma_node_map_within, lemma_sorted_insert, lemma_split_map_assembly,
    lemma_wf_shaped, lemma_wf_split_child, lemma_wf_update_child,
};

verus! {

/// One storage unit of the tree: an ordered key list, a parallel value
/// list, and an ordered child list (empty for a leaf).
pub(crate) struct Node<V> {
    pub(crate) keys: Vec<u64>,
    pub(crate) values: Vec<V>,
    pub(crate) children: Vec<Node<V>>,
}

impl<V> Node<V> {
    /// Number of levels in the subtree rooted here; a leaf counts as one.
    pub(crate) open spec fn height(self) -> nat
        decreases self,
    {
        if self.children@.len() == 0 {
            1
        } else {
            1 + self.children@[0].height()
        }
    }
}

/// What one step of the insert traversal reports upward.
enum InsertOutcome<V> {
    /// The pair went in and this subtree is within capacity again.
    Inserted,
    /// The key is already present; nothing changed anywhere.
    DuplicateKey,
    /// The pair went in, the node overflowed and was split: the median pair
    /// must move into the parent, and the new right sibling must stand
    /// beside the node it came from.
    Overflow { promoted_key: u64, promoted_value: V, right: Node<V> },
}

/// What the insert traversal guarantees: the returned node (and, on an
/// overflow, the promoted pair and the right sibling) is well formed, of
/// unchanged height, and holds the subtree's map with the new pair inserted;
/// a duplicate key leaves the map unchanged.
spec fn traverse_insert_post<V>(
    n: Node<V>,
    key: u64,
    value: V,
    order: nat,
    lo: Option<u64>,
    hi: Option<u64>,
    res: (Node<V>, InsertOutcome<V>),
) -> bool {
    let out = res.0;
    match res.1 {
        InsertOutcome::Inserted => {
            &&& !node_map(n).contains_key(key)
            &&& wf_sub(out, order, lo, hi)
            &&& out.keys@.len() <= order
            &&& n.keys@.len() <= out.keys@.len()
            &&& out.height() == n.height()
            &&& node_map(out) == node_map(n).insert(key, value)
        },
        InsertOutcome::DuplicateKey => {
            &&& node_map(n).contains_key(key)
            &&& wf_sub(out, order, lo, hi)
            &&& out.keys@.len() == n.keys@.len()
            &&& out.height() == n.height()
            &&& node_map(out) == node_map(n)
        },
        InsertOutcome::Overflow { promoted_key: pk, promoted_value: pv, right } => {
            &&& !node_map(n).contains_key(key)
            &&& wf_sub(out, order, lo, Some(pk))
            &&& wf_sub(right, order, Some(pk), hi)
            &&& min_keys(order) <= out.keys@.len() <= order
            &&& min_keys(order) <= right.keys@.len() <= order
            &&& within(lo, hi, pk)
            &&& out.height() == n.height()
            &&& right.height() == n.height()
            &&& node_map(out).union_prefer_right(node_map(right)).insert(pk, pv) == node_map(
                n,
            ).insert(key, value)
        },
    }
}

/// The closed error kinds of the tree.
#[derive(PartialEq, Eq, Structural, Clone, Copy, Debug)]
pub enum BTreeError {
    /// The order handed to the constructor is below the minimum or odd.
    ConfigError,
    /// The inserted key is already present; the tree is left unchanged.
    DuplicateKeyError,
    /// Key removal is not supported; the tree is left unchanged.
    UnsupportedError,
}

/// An ordered map from `u64` keys to values, organized as a B-tree whose
/// order (the most keys a node may hold) is fixed at construction.
pub struct BTree<V> {
    pub(crate) max_keys_per_node: usize,
    pub(crate) root: Node<V>,
}

impl<V> View for BTree<V> {
    type V = Map<u64, V>;

    /// The map the tree represents.
    open(crate) spec fn view(&self) -> Map<u64, V> {
        node_map(self.root)
    }
}

impl<V> BTree<V> {
    /// The tree is well formed: a valid order, a root within capacity, and
    /// every structural invariant of the node graph.
    pub open(crate) spec fn wf(self) -> bool {
        &&& self.max_keys_per_node >= 4
        &&& self.max_keys_per_node % 2 == 0
        &&& wf_sub(self.root, self.max_keys_per_node as nat, None, None)
        &&& self.root.keys@.len() <= self.max_keys_per_node
    }

    /// The order the tree was constructed with.
    pub open(crate) spec fn spec_order(self) -> nat {
        self.max_keys_per_node as nat
    }

    /// The number of levels of the tree; a single-leaf tree has height 1.
    pub open(crate) spec fn spec_height(self) -> nat {
        self.root.height()
    }

    /// The in-order traversal of all keys in the tree.
    pub open(crate) spec fn traversal(self) -> Seq<u64> {
        node_traversal(self.root)
    }

    /// The key-count of every node of the tree, root first.
    pub open(crate) spec fn key_counts(self) -> Seq<int> {
        node_counts(self.root)
    }

    /// The depth, in levels counted from the root, of every leaf.
    pub open(crate) spec fn leaf_depths(self) -> Seq<nat> {
        node_leaf_depths(self.root)
    }

    /// Builds a tree of the given order seeded with one key-value pair.
    /// The order must be even and at least 4; any other order is rejected
    /// with `ConfigError` and no tree is produced.
    pub fn new(first_key: u64, first_value: V, max_keys_per_node: usize) -> (r: Result<
        BTree<V>,
        BTreeError,
    >)
        ensures
            match r {
                Ok(t) => {
                    &&& max_keys_per_node >= 4
                    &&& max_keys_per_node % 2 == 0
                    &&& t.wf()
                    &&& t@ == Map::empty().insert(first_key, first_value)
                    &&& t.spec_order() == max_keys_per_node
                    &&& t.spec_height() == 1
                },
                Err(e) => {
                    &&& e == BTreeError::ConfigError
                    &&& (max_keys_per_node < 4 || max_keys_per_node % 2 != 0)
                },
            },
    {
        if max_keys_per_node < 4 {
            return Err(BTreeError::ConfigError);
        }
        if max_keys_per_node % 2 != 0 {
            return Err(BTreeError::ConfigError);
        }
        let mut keys: Vec<u64> = Vec::new();
        let mut values: Vec<V> = Vec::new();
        keys.push(first_key);
        values.push(first_value);
        let root = Node { keys, values, children: Vec::new() };
        let tree = BTree { max_keys_per_node, root };
        proof {
            let ks = tree.root.keys@;
            let vs = tree.root.values@;
            assert(ks =~= seq![first_key]);
            assert(vs =~= seq![first_value]);
            assert(kv_map(ks.drop_last(), vs.drop_last()) =~= Map::<u64, V>::empty());
            assert(kv_map(ks, vs) =~= Map::empty().insert(first_key, first_value));
            assert(union_seq(child_maps(tree.root, 0)) =~= Map::<u64, V>::empty());
            assert(tree@ =~= Map::empty().insert(first_key, first_value));
        }
        Ok(tree)
    }

    /// The read-only search traversal: scan the node's keys in order, return
    /// the value beside an exact match, descend left of the first greater
    /// key, or into the last child when every key is smaller; a leaf without
    /// a match ends the search.
    fn traverse_search<'a>(
        current_node: &'a Node<V>,
        key: u64,
        Ghost(order): Ghost<nat>,
        Ghost(lo): Ghost<Option<u64>>,
        Ghost(hi): Ghost<Option<u64>>,
    ) -> (r: Option<&'a V>)
        requires
            wf_sub(*current_node, order, lo, hi),
        ensures
            match r {
                Some(v) => node_map(*current_node).contains_key(key)
                    && node_map(*current_node)[key] == *v,
                None => !node_map(*current_node).contains_key(key),
            },
        decreases *current_node,
    {
        let ghost n = *current_node;
        let mut i: usize = 0;
        while i < current_node.keys.len() && current_node.keys[i] < key
            invariant
                wf_sub(n, order, lo, hi),
                n == *current_node,
                0 <= i <= n.keys@.len(),
                forall|j: int| 0 <= j < i ==> n.keys@[j] < key,
            decreases n.keys@.len() - i,
        {
            i += 1;
        }
        if i < current_node.keys.len() && current_node.keys[i] == key {
            proof {
                lemma_node_map_at_key(n, order, lo, hi, i as int);
            }
            return Some(&current_node.values[i]);
        }
        if current_node.children.len() == 0 {
            proof {
                lemma_kv_map_contains(n.keys@, n.values@);
                assert(!n.keys@.contains(key)) by {
                    if n.keys@.contains(key) {
                        let j = choose|j: int| 0 <= j < n.keys@.len() && n.keys@[j] == key;
                        if j >= i {
                            assert(n.keys@[i as int] <= n.keys@[j]);
                        }
                    }
                }
                assert(union_seq(child_maps(n, 0)) =~= Map::<u64, V>::empty());
                assert(!node_map(n).contains_key(key));
            }
            return None;
        }
        proof {
            if i < n.keys@.len() {
                assert(n.keys@[i as int] != key && n.keys@[i as int] >= key);
            }
            lemma_node_map_descend(n, order, lo, hi, i as int, key);
        }
        Self::traverse_search(
            &current_node.children[i],
            key,
            Ghost(order),
            Ghost(child_lo(n.keys@, lo, i as int)),
            Ghost(child_hi(n.keys@, hi, i as int)),
        )
    }

    /// Positional insertion into one node's key and value lists: the pair
    /// goes where it keeps the keys sorted, and an already-present key is
    /// reported without any change. Capacity is the caller's concern.
    fn insert_key_in_node(current_node: &mut Node<V>, key: u64, value: V) -> (dup: bool)
        requires
            old(current_node).values@.len() == old(current_node).keys@.len(),
            strictly_sorted(old(current_node).keys@),
        ensures
            ({
                let n0 = *old(current_node);
                let n1 = *final(current_node);
                if dup {
                    &&& n1 == n0
                    &&& n0.keys@.contains(key)
                } else {
                    &&& !n0.keys@.contains(key)
                    &&& n1.children@ == n0.children@
                    &&& n1.keys@.len() == n0.keys@.len() + 1
                    &&& n1.values@.len() == n1.keys@.len()
                    &&& strictly_sorted(n1.keys@)
                    &&& (forall|j: int|
                        0 <= j < n1.keys@.len() ==> n1.keys@[j] == key || n0.keys@.contains(
                            #[trigger] n1.keys@[j],
                        ))
                    &&& kv_map(n1.keys@, n1.values@) == kv_map(n0.keys@, n0.values@).insert(
                        key,
                        value,
                    )
                }
            }),
    {
        let ghost n0 = *current_node;
        let mut i: usize = 0;
        while i < current_node.keys.len() && current_node.keys[i] < key
            invariant
                *current_node == n0,
                n0.values@.len() == n0.keys@.len(),
                strictly_sorted(n0.keys@),
                0 <= i <= n0.keys@.len(),
                forall|j: int| 0 <= j < i ==> n0.keys@[j] < key,
            decreases n0.keys@.len() - i,
        {
            i += 1;
        }
        if i < current_node.keys.len() && current_node.keys[i] == key {
            proof {
                assert(n0.keys@[i as int] == key);
            }
            return true;
        }
        proof {
            assert(!n0.keys@.contains(key)) by {
                if n0.keys@.contains(key) {
                    let j = choose|j: int| 0 <= j < n0.keys@.len() && n0.keys@[j] == key;
                    if j >= i {
                        assert(n0.keys@[i as int] <= n0.keys@[j]);
                    }
                }
            }
        }
        current_node.keys.insert(i, key);
        current_node.values.insert(i, value);
        proof {
            let n1 = *current_node;
            assert forall|j: int| i <= j < n0.keys@.len() implies key < n0.keys@[j] by {
                assert(n0.keys@[i as int] <= n0.keys@[j]);
            }
            lemma_sorted_insert(n0.keys@, i as int, key);
            lemma_kv_map_insert(n0.keys@, n0.values@, i as int, key, value);
            n0.keys@.insert_ensures(i as int, key);
            assert forall|j: int|
                0 <= j < n1.keys@.len() implies n1.keys@[j] == key || n0.keys@.contains(
                #[trigger] n1.keys@[j]) by {
                if j < i {
                    assert(n1.keys@[j] == n0.keys@[j]);
                } else if j > i {
                    assert(n1.keys@[j] == n0.keys@[j - 1]);
                }
            }
        }
        false
    }

    /// The mutating traversal: descend from the node to the leaf the key
    /// belongs in, insert there, and resolve overflow on the way back up by
    /// splitting each over-full node and absorbing the promoted pair into
    /// its parent. An `Overflow` outcome means the node itself was split
    /// and its parent (or a new root) must absorb the promoted pair; a
    /// duplicate key anywhere is reported without any change.
    #[verifier::rlimit(80)]
    fn traverse_insert(
        current_node: Node<V>,
        key: u64,
        value: V,
        max_keys_per_node: usize,
        Ghost(lo): Ghost<Option<u64>>,
        Ghost(hi): Ghost<Option<u64>>,
    ) -> (res: (Node<V>, InsertOutcome<V>))
        requires
            max_keys_per_node >= 4,
            max_keys_per_node % 2 == 0,
            wf_sub(current_node, max_keys_per_node as nat, lo, hi),
            current_node.keys@.len() <= max_keys_per_node,
            within(lo, hi, key),
        ensures
            traverse_insert_post(current_node, key, value, max_keys_per_node as nat, lo, hi, res),
        decreases current_node,
    {
        let ghost n = current_node;
        let ghost order = max_keys_per_node as nat;
        let mut node = current_node;

        if node.children.len() == 0 {
            // Leaf: positional insertion, then split on overflow.
            let dup = Self::insert_key_in_node(&mut node, key, value);
            proof {
                lemma_leaf_node_map(n);
                lemma_kv_map_contains(n.keys@, n.values@);
            }
            if dup {
                return (node, InsertOutcome::DuplicateKey);
            }
            proof {
                lemma_leaf_node_map(node);
                assert forall|j: int| 0 <= j < node.keys@.len() implies within(
                    lo,
                    hi,
                    #[trigger] node.keys@[j],
                ) by {
                    if node.keys@[j] != key {
                        let p = choose|p: int|
                            0 <= p < n.keys@.len() && n.keys@[p] == node.keys@[j];
                        assert(within(lo, hi, n.keys@[p]));
                    }
                }
                assert(wf_sub(node, order, lo, hi));
                assert(node.height() == 1 && n.height() == 1);
            }
            if node.keys.len() > max_keys_per_node {
                let (left, pk, pv, right) = Self::split_node(
                    node,
                    max_keys_per_node,
                    Ghost(lo),
                    Ghost(hi),
                );
                return (
                    left,
                    InsertOutcome::Overflow { promoted_key: pk, promoted_value: pv, right },
                );
            }
            return (node, InsertOutcome::Inserted);
        }

        // Internal: find the child to descend into, exactly as the search
        // does, and report an exact match as a duplicate.
        let mut i: usize = 0;
        while i < node.keys.len() && node.keys[i] < key
            invariant
                node == n,
                wf_sub(n, order, lo, hi),
                0 <= i <= n.keys@.len(),
                forall|j: int| 0 <= j < i ==> n.keys@[j] < key,
            decreases n.keys@.len() - i,
        {
            i += 1;
        }
        if i < node.keys.len() && node.keys[i] == key {
            proof {
                lemma_node_map_at_key(n, order, lo, hi, i as int);
            }
            return (node, InsertOutcome::DuplicateKey);
        }
        let ghost lo_c = child_lo(n.keys@, lo, i as int);
        let ghost hi_c = child_hi(n.keys@, hi, i as int);
        proof {
            assert(n.children@.len() == n.keys@.len() + 1);
            if i < n.keys@.len() {
                assert(n.keys@[i as int] != key && !(n.keys@[i as int] < key));
            }
            assert(within(lo_c, hi_c, key));
            lemma_node_map_descend(n, order, lo, hi, i as int, key);
        }
        let child = node.children.remove(i);
        proof {
            assert(child == n.children@[i as int]);
        }
        let (child_out, outcome) = Self::traverse_insert(
            child,
            key,
            value,
            max_keys_per_node,
            Ghost(lo_c),
            Ghost(hi_c),
        );
        match outcome {
            InsertOutcome::DuplicateKey => {
                node.children.insert(i, child_out);
                proof {
                    assert(node.children@ =~= n.children@.update(i as int, child_out));
                    lemma_node_map_child_same(n, node, i as int);
                    lemma_wf_update_child(n, node, order, lo, hi, i as int);
                }
                (node, InsertOutcome::DuplicateKey)
            },
            InsertOutcome::Inserted => {
                node.children.insert(i, child_out);
                proof {
                    assert(node.children@ =~= n.children@.update(i as int, child_out));
                    lemma_node_map_child_insert(
                        n,
                        node,
                        order,
                        lo,
                        hi,
                        i as int,
                        key,
                        value,
                    );
                    lemma_wf_update_child(n, node, order, lo, hi, i as int);
                }
                (node, InsertOutcome::Inserted)
            },
            InsertOutcome::Overflow { promoted_key, promoted_value, right } => {
                // The child was split: the two halves stand where it stood,
                // and the promoted pair goes into this node's lists.
                node.children.insert(i, child_out);
                node.children.insert(i + 1, right);
                node.keys.insert(i, promoted_key);
                node.values.insert(i, promoted_value);
                proof {
                    let t = i as int;
                    let pk = promoted_key;
                    assert(node.children@ =~= n.children@.update(t, child_out).insert(
                        t + 1,
                        right,
                    ));
                    assert(node.children@.len() == n.children@.len() + 1);
                    assert forall|j: int| 0 <= j < t implies node.children@[j]
                        == n.children@[j] by {
                        n.children@.update(t, child_out).insert_ensures(t + 1, right);
                    }
                    assert(node.children@[t] == child_out);
                    assert(node.children@[t + 1] == right);
                    assert forall|j: int|
                        t + 1 < j < node.children@.len() implies node.children@[j] == n.children@[
                        j - 1] by {
                        n.children@.update(t, child_out).insert_ensures(t + 1, right);
                    }
                    lemma_wf_split_child(n, node, order, lo, hi, t, pk);
                    lemma_node_map_within(child_out, order, lo_c, Some(pk));
                    lemma_node_map_within(right, order, Some(pk), hi_c);
                    assert forall|k: u64| #[trigger] node_map(child_out).contains_key(k) implies
                        within(lo_c, hi_c, k) && k < pk by {
                        assert(within(lo_c, Some(pk), k));
                        assert(within(lo_c, hi_c, pk));
                    }
                    assert forall|k: u64| #[trigger] node_map(right).contains_key(k) implies
                        within(lo_c, hi_c, k) && pk < k by {
                        assert(within(Some(pk), hi_c, k));
                        assert(within(lo_c, hi_c, pk));
                    }
                    lemma_node_map_child_split(
                        n,
                        node,
                        order,
                        lo,
                        hi,
                        t,
                        key,
                        value,
                        pk,
                        promoted_value,
                    );
                }
                if node.keys.len() > max_keys_per_node {
                    let (left, pk2, pv2, right2) = Self::split_node(
                        node,
                        max_keys_per_node,
                        Ghost(lo),
                        Ghost(hi),
                    );
                    return (
                        left,
                        InsertOutcome::Overflow {
                            promoted_key: pk2,
                            promoted_value: pv2,
                            right: right2,
                        },
                    );
                }
                (node, InsertOutcome::Inserted)
            },
        }
    }

    /// Splits a node holding one key over capacity. The median key and value
    /// are promoted: they are handed back to the caller and live in neither
    /// half. The node itself is truncated to the keys below the median and
    /// returned as the left half; a new right sibling takes the keys above
    /// the median, and, for an internal node, the children beside them. Both
    /// halves hold exactly half the capacity, so they satisfy the fill bounds
    /// in one pass.
    #[verifier::rlimit(50)]
    fn split_node(child_to_split: Node<V>, max_keys_per_node: usize, Ghost(lo): Ghost<
        Option<u64>,
    >, Ghost(hi): Ghost<Option<u64>>) -> (res: (Node<V>, u64, V, Node<V>))
        requires
            max_keys_per_node >= 4,
            max_keys_per_node % 2 == 0,
            wf_sub(child_to_split, max_keys_per_node as nat, lo, hi),
            child_to_split.keys@.len() == max_keys_per_node + 1,
        ensures
            ({
                let (left, pk, pv, right) = res;
                let order = max_keys_per_node as nat;
                let n = child_to_split;
                &&& wf_sub(left, order, lo, Some(pk))
                &&& wf_sub(right, order, Some(pk), hi)
                &&& left.keys@.len() == order / 2
                &&& right.keys@.len() == order / 2
                &&& within(lo, hi, pk)
                &&& left.height() == n.height()
                &&& right.height() == n.height()
                &&& node_map(left).union_prefer_right(node_map(right)).insert(pk, pv) == node_map(
                    n,
                )
            }),
    {
        let mut node = child_to_split;
        let ghost n = node;
        let ghost order = max_keys_per_node as nat;
        let m = max_keys_per_node / 2;
        let right_keys = node.keys.split_off(m + 1);
        let right_values = node.values.split_off(m + 1);
        let pk = node.keys.remove(m);
        let pv = node.values.remove(m);
        let mut right_children: Vec<Node<V>> = Vec::new();
        if node.children.len() > 0 {
            right_children = node.children.split_off(m + 1);
        }
        let right = Node { keys: right_keys, values: right_values, children: right_children };
        proof {
            let mi = m as int;
            let kn = n.keys@.len() as int;
            assert(order == 2 * (order / 2));
            let lk = node.keys@;
            let lv = node.values@;
            let rk = right.keys@;
            let rv = right.values@;
            assert(lk =~= n.keys@.subrange(0, mi));
            assert(lv =~= n.values@.subrange(0, mi));
            assert(rk =~= n.keys@.subrange(mi + 1, kn));
            assert(rv =~= n.values@.subrange(mi + 1, kn));
            assert(pk == n.keys@[mi] && pv == n.values@[mi]);
            assert(within(lo, hi, pk));

            // Well-formedness of the left half.
            if n.children@.len() == 0 {
                assert(node.children@.len() == 0);
                assert(right.children@.len() == 0);
                assert(node.height() == 1 && right.height() == 1 && n.height() == 1);
            } else {
                assert(node.children@ =~= n.children@.subrange(0, mi + 1));
                assert(right.children@ =~= n.children@.subrange(mi + 1, kn + 1));
                assert(node.children@[0] == n.children@[0]);
                assert(node.height() == n.height());
                assert(right.children@[0] == n.children@[mi + 1]);
                assert(n.children@[mi + 1].height() + 1 == n.height());
                assert(right.height() == n.height());
            }
            assert(wf_sub(node, order, lo, Some(pk))) by {
                assert forall|j: int| 0 <= j < node.children@.len() implies {
                    let c = #[trigger] node.children@[j];
                    &&& wf_sub(c, order, child_lo(node.keys@, lo, j), child_hi(
                        node.keys@,
                        Some(pk),
                        j,
                    ))
                    &&& min_keys(order) <= c.keys@.len() <= order
                    &&& c.height() + 1 == node.height()
                } by {
                    let c = node.children@[j];
                    assert(c == n.children@[j]);
                    assert(wf_sub(c, order, child_lo(n.keys@, lo, j), child_hi(n.keys@, hi, j)));
                    assert(child_lo(node.keys@, lo, j) == child_lo(n.keys@, lo, j));
                    assert(child_hi(node.keys@, Some(pk), j) == child_hi(n.keys@, hi, j));
                }
            }
            // Well-formedness of the right half.
            assert(wf_sub(right, order, Some(pk), hi)) by {
                assert forall|i: int| 0 <= i < rk.len() implies within(
                    Some(pk),
                    hi,
                    #[trigger] rk[i],
                ) by {
                    assert(rk[i] == n.keys@[mi + 1 + i]);
                }
                assert forall|j: int| 0 <= j < right.children@.len() implies {
                    let c = #[trigger] right.children@[j];
                    &&& wf_sub(c, order, child_lo(right.keys@, Some(pk), j), child_hi(
                        right.keys@,
                        hi,
                        j,
                    ))
                    &&& min_keys(order) <= c.keys@.len() <= order
                    &&& c.height() + 1 == right.height()
                } by {
                    let c = right.children@[j];
                    assert(c == n.children@[mi + 1 + j]);
                    assert(wf_sub(
                        c,
                        order,
                        child_lo(n.keys@, lo, mi + 1 + j),
                        child_hi(n.keys@, hi, mi + 1 + j),
                    ));
                    assert(child_lo(right.keys@, Some(pk), j) == child_lo(n.keys@, lo, mi + 1 + j));
                    assert(child_hi(right.keys@, hi, j) == child_hi(n.keys@, hi, mi + 1 + j));
                }
            }

            // The two halves and the promoted pair together hold exactly the
            // node's map.
            lemma_node_map_within(node, order, lo, Some(pk));
            lemma_node_map_within(right, order, Some(pk), hi);
            assert forall|k: u64| #[trigger] node_map(node).contains_key(k) implies k < pk by {
                assert(within(lo, Some(pk), k));
            }
            assert forall|k: u64| #[trigger] node_map(right).contains_key(k) implies pk < k by {
                assert(within(Some(pk), hi, k));
            }
            lemma_split_map_assembly(n, node, right, pk, pv, mi);
        }
        (node, pk, pv, right)
    }

    /// Reports whether the key is present anywhere in the tree.
    pub fn key_exists(&self, key: u64) -> (r: bool)
        requires
            self.wf(),
        ensures
            r == self@.contains_key(key),
    {
        let found = Self::traverse_search(
            &self.root,
            key,
            Ghost(self.max_keys_per_node as nat),
            Ghost(None),
            Ghost(None),
        );
        found.is_some()
    }

    /// Inserts a key-value pair. On success the tree's map gains exactly
    /// that pair; splits resolve every overflow before the call returns, and
    /// the root is replaced by a new one level when it itself was split.
    /// Inserting a key that is already present anywhere in the tree reports
    /// `DuplicateKeyError` and leaves the tree's contents unchanged.
    pub fn insert(&mut self, key: u64, value: V) -> (r: Result<(), BTreeError>)
        requires
            old(self).wf(),
        ensures
            final(self).wf(),
            final(self).spec_order() == old(self).spec_order(),
            match r {
                Ok(()) => {
                    &&& !old(self)@.contains_key(key)
                    &&& final(self)@ == old(self)@.insert(key, value)
                    &&& old(self).spec_height() <= final(self).spec_height() <= old(
                        self,
                    ).spec_height() + 1
                },
                Err(e) => {
                    &&& e == BTreeError::DuplicateKeyError
                    &&& old(self)@.contains_key(key)
                    &&& final(self)@ == old(self)@
                    &&& final(self).spec_height() == old(self).spec_height()
                },
            },
    {
        let ghost t0 = *self;
        let mut root_holder = Node {
            keys: Vec::new(),
            values: Vec::new(),
            children: Vec::new(),
        };
        core::mem::swap(&mut root_holder, &mut self.root);
        let (root_out, outcome) = Self::traverse_insert(
            root_holder,
            key,
            value,
            self.max_keys_per_node,
            Ghost(None),
            Ghost(None),
        );
        match outcome {
            InsertOutcome::Inserted => {
                self.root = root_out;
                Ok(())
            },
            InsertOutcome::DuplicateKey => {
                self.root = root_out;
                Err(BTreeError::DuplicateKeyError)
            },
            InsertOutcome::Overflow { promoted_key, promoted_value, right } => {
                // The root itself was split: a new root one level up holds
                // the promoted pair between the two halves.
                let ghost order = self.max_keys_per_node as nat;
                let ghost ml = node_map(root_out);
                let ghost mr = node_map(right);
                let mut keys: Vec<u64> = Vec::new();
                let mut values: Vec<V> = Vec::new();
                let mut children: Vec<Node<V>> = Vec::new();
                keys.push(promoted_key);
                values.push(promoted_value);
                proof {
                    lemma_node_map_within(root_out, order, None, Some(promoted_key));
                    lemma_node_map_within(right, order, Some(promoted_key), None);
                }
                children.push(root_out);
                children.push(right);
                let new_root = Node { keys, values, children };
                proof {
                    let pk = promoted_key;
                    let pv = promoted_value;
                    assert(new_root.keys@ =~= seq![pk]);
                    assert(new_root.values@ =~= seq![pv]);
                    assert(wf_sub(new_root, order, None, None)) by {
                        assert(new_root.children@[0].height() + 1 == new_root.height());
                        assert(new_root.children@[1].height() + 1 == new_root.height());
                        assert(child_lo(new_root.keys@, None, 0) == None::<u64>);
                        assert(child_hi(new_root.keys@, None, 0) == Some(pk));
                        assert(child_lo(new_root.keys@, None, 1) == Some(pk));
                        assert(child_hi(new_root.keys@, None, 1) == None::<u64>);
                    }
                    // The new root's map is the two halves plus the pair.
                    lemma_child_maps_index(new_root, 2);
                    let cs = child_maps(new_root, 2);
                    assert(cs =~= seq![ml, mr]);
                    assert(union_seq(Seq::<Map<u64, V>>::empty()) == Map::<u64, V>::empty());
                    assert(seq![ml, mr].drop_last() =~= seq![ml]);
                    assert(seq![ml].drop_last() =~= Seq::<Map<u64, V>>::empty());
                    assert(union_seq(seq![ml].drop_last()) == Map::<u64, V>::empty());
                    assert(union_seq(seq![ml]) == Map::<u64, V>::empty().union_prefer_right(ml));
                    assert(union_seq(seq![ml, mr].drop_last()) == union_seq(seq![ml]));
                    assert(union_seq(seq![ml, mr]) == Map::<u64, V>::empty().union_prefer_right(
                        ml,
                    ).union_prefer_right(mr));
                    assert(seq![pk].drop_last() =~= Seq::<u64>::empty());
                    assert(seq![pv].drop_last() =~= Seq::<V>::empty());
                    assert(kv_map(seq![pk].drop_last(), seq![pv].drop_last()) == Map::<u64,
                        V,
                    >::empty());
                    assert(kv_map(seq![pk], seq![pv]) == Map::<u64, V>::empty().insert(pk, pv));
                    assert(node_map(new_root) =~= ml.union_prefer_right(mr).insert(pk, pv));
                }
                self.root = new_root;
                Ok(())
            },
        }
    }

    /// Appends the in-order traversal of the subtree to `out`: each child's
    /// keys before the separator key that follows it, the last child's keys
    /// at the end.
    fn collect_in_order(node: &Node<V>, out: &mut Vec<u64>, Ghost(order): Ghost<nat>)
        requires
            shaped(*node, order),
        ensures
            final(out)@ == old(out)@ + node_traversal(*node),
        decreases *node,
    {
        let ghost out0 = out@;
        if node.children.len() == 0 {
            let mut kidx: usize = 0;
            while kidx < node.keys.len()
                invariant
                    0 <= kidx <= node.keys@.len(),
                    out@ == out0 + node.keys@.subrange(0, kidx as int),
                decreases node.keys@.len() - kidx,
            {
                out.push(node.keys[kidx]);
                proof {
                    assert(out@ =~= out0 + node.keys@.subrange(0, kidx + 1));
                }
                kidx += 1;
            }
            proof {
                assert(node.keys@.subrange(0, node.keys@.len() as int) =~= node.keys@);
                assert(out@ =~= out0 + node_traversal(*node));
            }
        } else {
            let mut j: usize = 0;
            proof {
                assert(traversal_prefix(*node, 0) =~= Seq::<u64>::empty());
                assert(out@ =~= out0 + traversal_prefix(*node, 0));
            }
            while j < node.keys.len()
                invariant
                    shaped(*node, order),
                    node.children@.len() == node.keys@.len() + 1,
                    0 <= j <= node.keys@.len(),
                    out@ == out0 + traversal_prefix(*node, j as int),
                decreases node.keys@.len() - j,
            {
                proof {
                    assert(shaped(node.children@[j as int], order));
                }
                Self::collect_in_order(&node.children[j], out, Ghost(order));
                out.push(node.keys[j]);
                proof {
                    assert(out@ =~= out0 + traversal_prefix(*node, j + 1));
                }
                j += 1;
            }
            proof {
                assert(shaped(node.children@[node.children@.len() - 1], order));
            }
            Self::collect_in_order(&node.children[node.children.len() - 1], out, Ghost(order));
            proof {
                assert(out@ =~= out0 + node_traversal(*node));
            }
        }
    }

    /// The in-order traversal of all keys in the tree, smallest first.
    pub fn in_order_keys(&self) -> (r: Vec<u64>)
        requires
            self.wf(),
        ensures
            r@ == self.traversal(),
    {
        proof {
            lemma_wf_shaped(
                self.root,
                self.max_keys_per_node as nat,
                None::<u64>,
                None::<u64>,
            );
        }
        let mut out: Vec<u64> = Vec::new();
        Self::collect_in_order(&self.root, &mut out, Ghost(self.max_keys_per_node as nat));
        out
    }

    /// Renders the tree's keys level by level, root level first: an
    /// inspection hook for tests and tooling. One inner vector per level,
    /// holding the keys of that level's nodes in node order.
    pub fn describe(&self) -> (r: Vec<Vec<u64>>)
        requires
            self.wf(),
        ensures
            r@.len() == self.spec_height(),
    {
        let ghost order = self.max_keys_per_node as nat;
        let mut result: Vec<Vec<u64>> = Vec::new();
        let mut current: Vec<&Node<V>> = Vec::new();
        current.push(&self.root);
        proof {
            lemma_wf_shaped(self.root, order, None::<u64>, None::<u64>);
            assert(*current@[0] == self.root);
            assert(shaped(*current@[0], order));
        }
        let ghost mut ch = self.root.height();
        while current.len() > 0
            invariant
                result@.len() + ch == self.spec_height(),
                current@.len() == 0 ==> ch == 0,
                current@.len() > 0 ==> ch >= 1,
                forall|j: int| 0 <= j < current@.len() ==> (#[trigger] current@[j]).height() == ch,
                forall|j: int| 0 <= j < current@.len() ==> shaped(*(#[trigger] current@[j]), order),
            decreases ch,
        {
            let mut next: Vec<&Node<V>> = Vec::new();
            let mut level: Vec<u64> = Vec::new();
            let mut idx: usize = 0;
            while idx < current.len()
                invariant
                    0 <= idx <= current@.len(),
                    ch >= 1,
                    forall|j: int|
                        0 <= j < current@.len() ==> (#[trigger] current@[j]).height() == ch,
                    forall|j: int|
                        0 <= j < current@.len() ==> shaped(*(#[trigger] current@[j]), order),
                    forall|j: int| 0 <= j < next@.len() ==> (#[trigger] next@[j]).height() + 1 == ch,
                    forall|j: int| 0 <= j < next@.len() ==> shaped(*(#[trigger] next@[j]), order),
                    ch > 1 && idx > 0 ==> next@.len() > 0,
                decreases current@.len() - idx,
            {
                let nd: &Node<V> = current[idx];
                proof {
                    assert(nd == current@[idx as int]);
                    assert(shaped(*nd, order) && nd.height() == ch);
                }
                let mut kidx: usize = 0;
                while kidx < nd.keys.len()
                    invariant
                        0 <= kidx <= nd.keys@.len(),
                    decreases nd.keys@.len() - kidx,
                {
                    level.push(nd.keys[kidx]);
                    kidx += 1;
                }
                let mut cidx: usize = 0;
                while cidx < nd.children.len()
                    invariant
                        0 <= cidx <= nd.children@.len(),
                        shaped(*nd, order),
                        nd.height() == ch,
                        forall|j: int|
                            0 <= j < next@.len() ==> (#[trigger] next@[j]).height() + 1 == ch,
                        forall|j: int|
                            0 <= j < next@.len() ==> shaped(*(#[trigger] next@[j]), order),
                        nd.children@.len() > 0 && cidx > 0 ==> next@.len() > 0,
                    decreases nd.children@.len() - cidx,
                {
                    let ghost pre = next@;
                    next.push(&nd.children[cidx]);
                    proof {
                        assert(shaped(nd.children@[cidx as int], order));
                        assert(*next@[next@.len() - 1] == nd.children@[cidx as int]);
                        assert forall|j: int| 0 <= j < next@.len() implies (
                        #[trigger] next@[j]).height() + 1 == ch && shaped(*(next@[j]), order) by {
                            if j < pre.len() {
                                assert(next@[j] == pre[j]);
                            }
                        }
                    }
                    cidx += 1;
                }
                proof {
                    if ch > 1 {
                        assert(nd.children@.len() > 0);
                        assert(next@.len() > 0);
                    }
                }
                idx += 1;
            }
            result.push(level);
            proof {
                if ch == 1 {
                    assert(next@.len() == 0) by {
                        if next@.len() > 0 {
                            assert(next@[0].height() + 1 == ch);
                        }
                    }
                } else {
                    assert(next@.len() > 0);
                }
            }
            current = next;
            proof {
                ch = (ch - 1) as nat;
            }
        }
        result
    }

    /// Key removal is out of scope: every call reports `UnsupportedError`
    /// and leaves the tree exactly as it was.
    pub fn remove(&mut self, _key: u64) -> (r: Result<V, BTreeError>)
        ensures
            r == Err::<V, BTreeError>(BTreeError::UnsupportedError),
            *final(self) == *old(self),
    {
        Err(BTreeError::UnsupportedError)
    }
}

impl<V: Copy> BTree<V> {
    /// Looks the key up and returns the value stored beside it, or `None`
    /// when the key was never inserted.
    pub fn get(&self, key: u64) -> (r: Option<V>)
        requires
            self.wf(),
        ensures
            r == if self@.contains_key(key) {
                Some(self@[key])
            } else {
                None::<V>
            },
    {
        let found = Self::traverse_search(
            &self.root,
            key,
            Ghost(self.max_keys_per_node as nat),
            Ghost(None),
            Ghost(None),
        );
        match found {
            Some(v) => Some(*v),
            None => None,
        }
    }
}

} // verus!
